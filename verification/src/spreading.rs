//! How the code of functions lies in a script: which blocks it opens and feeds, and
//! what is ready behind it.
use crate::applying::{call_turn, lemma_apply_len, lemma_call_parts, lemma_call_small};
use crate::blocks::{all_params, calls_itself, LoopHead, Tail};
use crate::currying::{
    embedded, lemma_function_own, lemma_head_func, lemma_plain_kept, plain_param, Closed,
};
use crate::error::CodegenError;
use crate::evaluation::{
    bare, bare_block, bare_rest, bind_count, call_args, cell_var, seen_with, spoken, spoken_block,
    spoken_rest, spoken_steps,
};
use crate::ir::{target, CallArg, Comp, Ir, Type, ValueLayout};
use crate::layout::CaptureInfo;
use crate::meaning::{extends, opened, ready, Machine};
use crate::programs::Names;
use crate::shape::{
    all_scalar, countable, env_ready, grown, if_head, if_turn, laid_in, lemma_bound,
    lemma_comp_grown, lemma_env_kept, lemma_extends, lemma_grown, lemma_head, lemma_head_settled,
    lemma_if_grown, lemma_if_laid, lemma_loop_blocks, lemma_loop_body_settled, lemma_loop_close,
    lemma_loop_grown, lemma_loop_head_grown, lemma_loop_len, lemma_loop_out_settled, lemma_of_if,
    lemma_of_steps, lemma_opened, lemma_turn, lemma_whole, nested_in, of_comp, of_ir, of_steps,
    own_blocks, phi_at, settled, LoopParts,
};
use crate::state::St;
use crate::tails::{
    body_laid, lam_param, lemma_edges_opened, lemma_feed, lemma_headed, lemma_headed_len,
    lemma_loop_entered, lemma_prologue_runs, lemma_tail_branch, loop_entered, names_of, of_tail,
    of_tail_comp, plain_capture, tail_branch, tail_turn,
};
use crate::target::{Cmd, Ty, Val};
use crate::weaving::{
    apt, behind_fun, closed_parts, closing, fun_parts, lemma_again, lemma_app_is, lemma_block_is,
    lemma_block_sized, lemma_bound_sized, lemma_build, lemma_call_is, lemma_chain,
    lemma_closing_sized, lemma_comp_sized, lemma_fun_sized, lemma_lam_is, lemma_lifting_is,
    lemma_loop_apt, lemma_loop_parts, lemma_rest_is, lemma_rest_sized, lemma_slot_is,
    lemma_speeding_is, lemma_spoken_step, lemma_steps_sized, lemma_tail_comp_is,
    lemma_tail_comp_sized, lemma_tail_is, lemma_tail_rest_is, lemma_tail_rest_sized,
    lemma_tail_sized, of_bound, of_rest, of_tail_rest, run_on, vals_of, FunCode,
};
use std::rc::Rc;
use vstd::prelude::*;

verus! {

/// The slots of the mutable locals are there.
pub open spec fn slots_ready(st: St) -> bool {
    forall|x: Seq<char>| #[trigger] st.cx.slots.get(x) matches Some(v) ==> ready(st, v)
}

/// A state in which programs are lowered.
pub open spec fn fit(st: St) -> bool {
    &&& apt(st)
    &&& settled(st)
    &&& st.cx.block < st.script.len()
    &&& env_ready(st)
    &&& slots_ready(st)
}

proof fn lemma_slots_ready(st: St, end: St)
    requires
        slots_ready(st),
        end.cx.slots == st.cx.slots,
        st.script.len() <= end.script.len(),
    ensures
        slots_ready(end),
{
    assert forall|x: Seq<char>| #[trigger] end.cx.slots.get(x) matches Some(v) ==> ready(end, v) by {
        if let Some(v) = st.cx.slots.get(x) {
            assert(ready(st, v));
        }
    }
}

/// Code was added that goes on in the block that was open.
pub open spec fn ringed(st: St, end: St) -> bool {
    &&& extends(end.script, st.script)
    &&& st.script.len() <= end.script.len()
    &&& nested_in(end.script, st.script.len() as int, end.script.len() as int, st.cx.block)
    &&& opened(end.script, end.script.len() as int) == st.cx.block
    &&& end.cx.block == st.cx.block
    &&& !end.cx.gc
}

pub(crate) proof fn lemma_ringed(a: St, b: St, c: St)
    requires
        ringed(a, b),
        ringed(b, c),
    ensures
        ringed(a, c),
{
    lemma_extends(a.script, b.script, c.script);
    assert forall|i: int| a.script.len() <= i < c.script.len() implies match #[trigger] c.script[i] {
        Cmd::At { block } => a.script.len() <= block < c.script.len() || block == a.cx.block,
        Cmd::Incoming { phi, .. } => a.script.len() <= phi < c.script.len(),
        _ => true,
    } by {
        if i < b.script.len() {
            assert(c.script[i] == b.script[i]);
        }
    }
}

proof fn lemma_run_opened(st: St, end: St, i: int)
    requires
        run_on(st, end),
        st.script.len() <= i <= end.script.len(),
    ensures
        opened(end.script, i) == opened(st.script, st.script.len() as int),
    decreases i,
{
    if i == st.script.len() {
        lemma_opened(end.script, st.script, i);
    } else {
        assert(!(end.script[i - 1] is At));
        lemma_run_opened(st, end, i - 1);
    }
}

pub(crate) proof fn lemma_run_ringed(st: St, end: St)
    requires
        run_on(st, end),
        opened(st.script, st.script.len() as int) == st.cx.block,
        !st.cx.gc,
    ensures
        ringed(st, end),
{
    lemma_run_opened(st, end, end.script.len() as int);
}

pub(crate) proof fn lemma_ringed_laid(st: St, end: St)
    requires
        settled(st),
        st.cx.block < st.script.len(),
        !st.cx.gc,
        ringed(st, end),
    ensures
        laid_in(st, end),
{
    assert forall|i: int| 0 <= i < end.script.len() implies match #[trigger] end.script[i] {
        Cmd::At { block } => 0 <= block < end.script.len(),
        Cmd::Incoming { phi, .. } => 0 <= phi < end.script.len(),
        _ => true,
    } by {
        if i < st.script.len() {
            assert(end.script[i] == st.script[i]);
        }
    }
}

proof fn lemma_run_grown(st: St, end: St)
    requires
        settled(st),
        st.cx.block < st.script.len(),
        !st.cx.gc,
        run_on(st, end),
    ensures
        grown(st, end),
{
    lemma_run_ringed(st, end);
    lemma_ringed_laid(st, end);
}

proof fn lemma_laid_then(a: St, b: St, c: St)
    requires
        laid_in(a, b),
        laid_in(b, c),
    ensures
        laid_in(a, c),
{
    lemma_extends(a.script, b.script, c.script);
    assert forall|i: int| a.script.len() <= i < c.script.len() implies match #[trigger] c.script[i] {
        Cmd::At { block } => a.script.len() <= block < c.script.len() || block == a.cx.block,
        Cmd::Incoming { phi, .. } => a.script.len() <= phi < c.script.len(),
        _ => true,
    } by {
        if i < b.script.len() {
            assert(c.script[i] == b.script[i]);
        }
    }
}

/// Code in tail position was added to a state; it may feed the phis of the loop that
/// it is in.
pub open spec fn tail_woven(st: St, end: St, phis: Seq<u64>) -> bool {
    &&& st.script.len() <= end.script.len()
    &&& extends(end.script, st.script)
    &&& settled(end)
    &&& forall|i: int|
        st.script.len() <= i < end.script.len() ==> match #[trigger] end.script[i] {
            Cmd::At { block } => st.script.len() <= block < end.script.len() || block
                == st.cx.block,
            Cmd::Incoming { phi, from, .. } => st.script.len() <= phi < end.script.len() || (
            phis.contains(phi) && (from == st.cx.block || st.script.len() <= from
                < end.script.len())),
            _ => true,
        }
    &&& !end.cx.gc
    &&& slots_ready(end)
}

proof fn lemma_tail_then(st: St, mid: St, end: St, phis: Seq<u64>)
    requires
        laid_in(st, mid),
        tail_woven(mid, end, phis),
    ensures
        tail_woven(st, end, phis),
{
    lemma_extends(st.script, mid.script, end.script);
    let n = st.script.len() as int;
    let e = end.script.len() as int;
    assert forall|i: int| n <= i < e implies match #[trigger] end.script[i] {
        Cmd::At { block } => n <= block < e || block == st.cx.block,
        Cmd::Incoming { phi, from, .. } => n <= phi < e || (phis.contains(phi) && (from
            == st.cx.block || n <= from < e)),
        _ => true,
    } by {
        if i < mid.script.len() {
            assert(end.script[i] == mid.script[i]);
        }
    }
}

// ── computations ─────────────────────────────────────────────────────────
proof fn lemma_call_laid(st: St, clos: Val, args: Seq<CallArg>, vs: Seq<Val>, fun_ty: Rc<Type>)
    requires
        !st.cx.gc,
        settled(st),
        0 < args.len() == vs.len(),
        st.call_by_arity(clos, args, vs, fun_ty, Ty::I64) is Ok,
        countable(st.call_by_arity(clos, args, vs, fun_ty, Ty::I64)->Ok_0.0),
    ensures
        ({
            let (end, v) = st.call_by_arity(clos, args, vs, fun_ty, Ty::I64)->Ok_0;
            &&& grown(st, end)
            &&& ready(end, v)
            &&& end.cx.slots == st.cx.slots
        }),
{
    let n = st.script.len() as int;
    let (end, v) = st.call_by_arity(clos, args, vs, fun_ty, Ty::I64)->Ok_0;
    lemma_call_small(st, clos, args, vs, fun_ty);
    let p = lemma_call_parts(st, clos, args, vs, fun_ty);
    let f = p.fast_end.script.len() as int;
    let c = p.slow_end.script.len() as int;
    let turn = call_turn(st, p.fast_end);
    assert(extends(turn.script, p.fast_end.script));
    lemma_extends(p.fast_end.script, turn.script, p.slow_end.script);
    lemma_extends(p.st.script, p.fast_end.script, p.slow_end.script);
    lemma_extends(p.st.script, p.slow_end.script, end.script);
    assert(extends(p.st.script, st.script));
    lemma_extends(st.script, p.st.script, end.script);
    assert forall|i: int| n <= i < end.script.len() implies match #[trigger] end.script[i] {
        Cmd::At { block } => n <= block < end.script.len(),
        Cmd::Incoming { phi, .. } => n <= phi < end.script.len(),
        _ => true,
    } by {
        if i < n + 12 {
            assert(end.script[i] == p.st.script[i]);
        } else if i < f {
        } else if f + 2 <= i < c {
        }
    }
    assert(own_blocks(end.script, n, end.script.len() as int));
    lemma_whole(st, end);
    reveal_with_fuel(opened, 5);
    assert(opened(end.script, c + 5) == (n + 8) as u64);
}

pub(crate) proof fn lemma_head_fit(st: St, c: Val)
    requires
        fit(st),
        st.script.len() + 6 <= u64::MAX,
    ensures
        fit(if_head(st, c).0),
{
    lemma_head(st, c);
    lemma_head_settled(st, c);
    lemma_env_kept(st, if_head(st, c).0);
    lemma_plain_kept(st, if_head(st, c).0);
    lemma_slots_ready(st, if_head(st, c).0);
}

pub(crate) proof fn lemma_turn_fit(st: St, c: Val, t1: St)
    requires
        fit(st),
        st.script.len() + 6 <= t1.script.len(),
        countable(t1),
        fit(t1),
    ensures
        fit(if_turn(st, c, t1)),
{
    lemma_turn(st, c, t1);
    lemma_head(st, c);
    lemma_env_kept(st, if_turn(st, c, t1));
    lemma_plain_kept(st, if_turn(st, c, t1));
    lemma_slots_ready(t1, if_turn(st, c, t1));
}

pub(crate) proof fn lemma_comp_woven(st: St, fuel: nat, comp: Comp, held: Names, seen: Names, m: Machine)
    requires
        fit(st),
        held.subset_of(seen),
        spoken(comp, held, seen),
        of_comp(st, fuel, comp) is Ok,
        countable(of_comp(st, fuel, comp)->Ok_0.0),
        m.args.len() == 0,
    ensures
        ({
            let (end, v) = of_comp(st, fuel, comp)->Ok_0;
            &&& laid_in(st, end)
            &&& fit(end)
            &&& ready(end, v)
            &&& bare(comp) ==> grown(st, end)
        }),
    decreases comp, 1nat,
{
    let (end, v) = of_comp(st, fuel, comp)->Ok_0;
    lemma_comp_sized(st, fuel, comp, held, seen);
    lemma_env_kept(st, end);
    lemma_plain_kept(st, end);
    match comp {
        Comp::Atom(a) => {
            lemma_comp_grown(st, fuel, comp);
            crate::shape::lemma_of_atom(st, fuel, comp);
            crate::shape::lemma_atom(st, a);
        },
        Comp::Bin(op, a, b) => {
            lemma_comp_grown(st, fuel, comp);
            crate::shape::lemma_of_bin(st, fuel, comp);
            crate::shape::lemma_bin(st, op, a, b);
            crate::weaving::lemma_cell_atom(st, a);
            crate::weaving::lemma_bin_scope(st, op, st.atom(a)->Ok_0.1, st.atom(b)->Ok_0.1);
            lemma_slots_ready(st, end);
        },
        Comp::Loop { .. } => {
            let p = lemma_loop_parts(st, fuel, comp, held, seen);
            lemma_loop_woven(st, fuel, comp, p, held, seen, m);
            lemma_loop_grown(st, fuel, comp, p);
            lemma_slots_ready(p.r1, end);
        },
        Comp::If(_, yes, no) => {
            let (c, t1, a, e1, b) = lemma_of_if(st, fuel, comp);
            let head = if_head(st, c).0;
            let turn = if_turn(st, c, t1);
            lemma_plain_kept(st, head);
            lemma_block_sized(head, fuel, target(yes), seen, seen);
            lemma_plain_kept(st, turn);
            lemma_block_sized(turn, fuel, target(no), seen, seen);
            lemma_head_fit(st, c);
            lemma_block_woven(head, fuel, target(yes), seen, seen, m);
            lemma_turn_fit(st, c, t1);
            lemma_block_woven(turn, fuel, target(no), seen, seen, m);
            lemma_if_grown(st, c, t1, a, e1, b);
            lemma_if_laid(st, c, t1, a, e1, b);
            lemma_slots_ready(e1, end);
        },
        Comp::Lam { .. } => {
            lemma_lam_is(st, fuel, comp);
            let _ = lemma_closing_woven(st, fuel, None, comp, seen, m);
        },
        Comp::App { .. } => {
            let (clos, arg) = lemma_app_is(st, fuel, comp);
            lemma_apply_len(st, clos, arg, comp->App_arg_ty, comp->App_ret_ty);
            assert(run_on(st, end));
            lemma_run_ringed(st, end);
            lemma_ringed_laid(st, end);
            lemma_run_grown(st, end);
            lemma_slots_ready(st, end);
        },
        Comp::Call { .. } => {
            let clos = lemma_call_is(st, fuel, comp);
            let vs = vals_of(st, call_args(comp));
            lemma_call_laid(st, clos, comp->Call_args@, vs, comp->Call_fun_ty);
            lemma_slots_ready(st, end);
        },
        Comp::SlotInit(name, a) => {
            lemma_slot_is(st, fuel, comp);
            crate::shape::lemma_atom_ready(st, a);
            assert(run_on_but(st, end));
            lemma_run_on_but(st, end);
            lemma_run_grown(
                st,
                St { script: end.script, cx: crate::state::Cx { slots: st.cx.slots, ..end.cx } },
            );
            assert forall|x: Seq<char>| #[trigger] end.cx.slots.get(x) matches Some(v) ==> ready(end, v) by {
                if x != name@ {
                    assert(end.cx.slots.get(x) == st.cx.slots.get(x));
                }
            }
        },
        Comp::SlotStore(name, a) => {
            lemma_slot_is(st, fuel, comp);
            assert(run_on(st, end));
            lemma_run_ringed(st, end);
            lemma_ringed_laid(st, end);
            lemma_run_grown(st, end);
            lemma_slots_ready(st, end);
        },
        Comp::SlotLoad(name) => {
            lemma_slot_is(st, fuel, comp);
            assert(run_on(st, end));
            lemma_run_ringed(st, end);
            lemma_ringed_laid(st, end);
            lemma_run_grown(st, end);
            lemma_slots_ready(st, end);
        },
        _ => {},
    }
}

/// How the parts of a loop lie.
pub open spec fn loop_woven(st: St, comp: Comp, p: LoopParts) -> bool {
    let (hd, h) = p.head(st, comp);
    let body = p.body(st, comp);
    let out = p.out(st, comp);
    let k = comp->Loop_vars@.len();
    &&& fit(hd) && fit(p.c1) && grown(hd, p.c1)
    &&& fit(body) && grown(body, p.s1)
    &&& fit(out) && fit(p.r1) && grown(out, p.r1)
    &&& slots_ready(p.s1)
    &&& h.env == hd.cx.env
    &&& body.cx.env == hd.cx.env
    &&& out.cx.env == hd.cx.env
    &&& h.storages == p.storages
    &&& hd.script.len() == st.script.len() + 5 + 2 * k
    &&& body.script.len() == p.c1.script.len() + 3
    &&& out.script.len() == p.s1.script.len() + k + 2
    &&& p.nexts.len() == k
    &&& ready(p.c1, p.cv)
    &&& ready(p.r1, p.v)
    &&& countable(p.c1) && countable(p.s1) && countable(p.r1)
    &&& forall|j: int| 0 <= j < p.nexts.len() ==> ready(p.s1, #[trigger] p.nexts[j])
}

#[verifier::rlimit(40)]
pub(crate) proof fn lemma_loop_woven(
    st: St,
    fuel: nat,
    comp: Comp,
    p: LoopParts,
    held: Names,
    seen: Names,
    m: Machine,
)
    requires
        fit(st),
        held.subset_of(seen),
        spoken(comp, held, seen),
        p.of(st, fuel, comp),
        countable(p.r1),
        m.args.len() == 0,
    ensures
        loop_woven(st, comp, p),
    decreases comp, 0nat,
{
    if let Comp::Loop { vars, cond, steps, result } = comp {
        let (hd, h) = p.head(st, comp);
        let body = p.body(st, comp);
        let out = p.out(st, comp);
        lemma_loop_len(st, fuel, comp, p);
        lemma_loop_apt(st, fuel, comp, p, held, seen);
        lemma_block_sized(hd, fuel, target(cond), seen, seen);
        lemma_plain_kept(hd, body);
        lemma_plain_kept(hd, body.in_env(h.env));
        lemma_steps_sized(body, fuel, steps, h, 0, Seq::empty(), seen);
        lemma_plain_kept(hd, out);
        lemma_block_sized(out, fuel, target(result), seen, seen);
        lemma_loop_head_grown(st, fuel, comp, p);
        lemma_slots_ready(st, hd);
        assert(fit(hd));
        lemma_block_woven(hd, fuel, target(cond), seen, seen, m);
        lemma_loop_body_settled(st, fuel, comp, p);
        lemma_env_kept(hd, body);
        lemma_loop_blocks(st, vars@, p.storages, p.inits);
        lemma_slots_ready(p.c1, body);
        assert(body.cx.block == h.body);
        assert(fit(body));
        lemma_env_kept(hd, body.in_env(h.env));
        assert(fit(body.in_env(h.env)));
        lemma_steps_woven(body, fuel, steps, h, 0, Seq::empty(), seen, m);
        lemma_loop_out_settled(st, fuel, comp, p);
        lemma_env_kept(hd, out);
        lemma_loop_close(p.s1, h, p.nexts, st, st.script.len() as int + 5);
        lemma_slots_ready(p.s1, out);
        assert(fit(out));
        lemma_block_woven(out, fuel, target(result), seen, seen, m);
    }
}

#[verifier::rlimit(30)]
pub(crate) proof fn lemma_steps_woven(
    st: St,
    fuel: nat,
    steps: Vec<Ir>,
    h: LoopHead,
    i: nat,
    done: Seq<Val>,
    seen: Names,
    m: Machine,
)
    requires
        fit(st.in_env(h.env)),
        spoken_steps(steps, steps.len() as nat, seen),
        all_scalar(h.storages),
        h.storages.len() == steps.len(),
        i <= steps.len(),
        done.len() == i,
        forall|j: int| 0 <= j < i ==> ready(st, #[trigger] done[j]),
        of_steps(st, fuel, steps, h, i, done) is Ok,
        countable(of_steps(st, fuel, steps, h, i, done)->Ok_0.0),
        m.args.len() == 0,
    ensures
        ({
            let (end, nexts) = of_steps(st, fuel, steps, h, i, done)->Ok_0;
            &&& grown(st, end)
            &&& slots_ready(end)
            &&& nexts.len() == steps.len()
            &&& forall|j: int| 0 <= j < steps.len() ==> ready(end, #[trigger] nexts[j])
            &&& forall|j: int| 0 <= j < i ==> nexts[j] == #[trigger] done[j]
        }),
    decreases steps, steps.len() - i,
{
    lemma_of_steps(st, fuel, steps, h, i, done);
    if i < steps.len() {
        let begun = st.in_env(h.env);
        lemma_spoken_step(steps, steps.len() as nat, i as int, seen);
        let (mid, v) = of_ir(begun, fuel, steps[i as int])->Ok_0;
        lemma_block_sized(begun, fuel, steps[i as int], seen, seen);
        lemma_plain_kept(begun, mid.in_env(h.env));
        lemma_steps_sized(mid, fuel, steps, h, i + 1, done.push(v), seen);
        lemma_block_woven(begun, fuel, steps[i as int], seen, seen, m);
        lemma_env_kept(begun, mid.in_env(h.env));
        lemma_slots_ready(mid, mid.in_env(h.env));
        assert(fit(mid.in_env(h.env)));
        let more = done.push(v);
        assert forall|j: int| 0 <= j < i + 1 implies ready(mid, #[trigger] more[j]) by {
            if j < i {
                assert(ready(st, done[j]));
            }
        }
        lemma_steps_woven(mid, fuel, steps, h, i + 1, more, seen, m);
        let (end, nexts) = of_steps(st, fuel, steps, h, i, done)->Ok_0;
        assert(grown(st, mid));
        lemma_grown(st, mid, end);
        assert forall|j: int| 0 <= j < i implies nexts[j] == #[trigger] done[j] by {
            assert(more[j] == done[j]);
        }
    }
}

/// Commands that neither open a block nor feed a phi were added.
spec fn run_on_but(st: St, end: St) -> bool {
    run_on(st, St { script: end.script, cx: crate::state::Cx { slots: st.cx.slots, ..end.cx } })
}

proof fn lemma_run_on_but(st: St, end: St)
    requires
        run_on_but(st, end),
        settled(st),
        st.cx.block < st.script.len(),
        !st.cx.gc,
    ensures
        laid_in(st, end),
{
    let same = St { script: end.script, cx: crate::state::Cx { slots: st.cx.slots, ..end.cx } };
    lemma_run_ringed(st, same);
    lemma_ringed_laid(st, same);
}

pub(crate) proof fn lemma_bound_woven(
    st: St,
    fuel: nat,
    name: String,
    ty: Rc<Type>,
    layout: ValueLayout,
    comp: Comp,
    held: Names,
    seen: Names,
    m: Machine,
)
    requires
        fit(st),
        held.subset_of(seen),
        spoken(comp, held, seen),
        cell_var(ty, layout),
        of_bound(st, fuel, name, comp) is Ok,
        countable(of_bound(st, fuel, name, comp)->Ok_0.0),
        m.args.len() == 0,
    ensures
        ({
            let (mid, v) = of_bound(st, fuel, name, comp)->Ok_0;
            let next = mid.bind(name, v, ty, layout);
            &&& laid_in(st, next)
            &&& fit(next)
            &&& ready(mid, v)
            &&& bare(comp) ==> grown(st, next)
        }),
    decreases comp, 2nat,
{
    let (mid, v) = of_bound(st, fuel, name, comp)->Ok_0;
    let next = mid.bind(name, v, ty, layout);
    lemma_bound_sized(st, fuel, name, ty, layout, comp, held, seen);
    if crate::blocks::names_itself(comp, name@) {
        lemma_again(comp, held, seen);
        let _ = lemma_closing_woven(st, fuel, Some(name), comp, seen, m);
    } else {
        lemma_comp_woven(st, fuel, comp, held, seen, m);
    }
    lemma_bound(mid, name, v, ty, layout);
    lemma_slots_ready(mid, next);
}

/// A function stands between the state and the block's going on.
pub open spec fn placed_fun(st: St, q: FunCode) -> bool {
    &&& embedded(st, behind_fun(st, q))
    &&& extends(behind_fun(st, q).script, q.out.script)
    &&& extends(q.out.script, q.start.script)
    &&& extends(q.start.script, st.script)
    &&& ringed(st, behind_fun(st, q))
    &&& fit(q.start)
    &&& st.script.len() <= q.start.cx.block < q.start.script.len()
    &&& slots_ready(behind_fun(st, q))
}

/// The head of a function's loop is laid out.
pub open spec fn headed_fun(st: St, q: FunCode) -> bool {
    &&& fit(q.first)
    &&& extends(q.first.script, q.start.script)
    &&& extends(q.out.script, q.first.script)
    &&& tail_woven(q.first, q.out, q.t.phis)
    &&& q.first.cx.block == q.start.script.len()
    &&& q.t.phis.len() == q.params.len()
    &&& forall|j: int|
        0 <= j < q.t.phis.len() ==> #[trigger] q.t.phis[j] == phi_at(
            q.start.script.len() as int + 3,
            j,
        )
}

pub(crate) proof fn lemma_fun_woven(
    st: St,
    fuel: nat,
    own: Option<String>,
    caps: Seq<CaptureInfo>,
    q: FunCode,
    seen: Names,
    m: Machine,
)
    requires
        fit(st),
        spoken_block(q.body, seen, seen),
        forall|k: int| 0 <= k < q.params.len() ==> plain_param(#[trigger] q.params[k]),
        forall|k: int| 0 <= k < caps.len() ==> plain_capture(#[trigger] caps[k]),
        fun_parts(st, fuel, own, caps, q),
        countable(q.out),
        m.args.len() == 0,
    ensures
        placed_fun(st, q),
        own is None ==> laid_in(q.start, q.mid),
        own is Some ==> headed_fun(st, q),
    decreases q.body, bind_count(q.body) + 2,
{
    let n = st.script.len() as int;
    lemma_fun_sized(st, fuel, own, caps, q, seen);
    let _ = lemma_prologue_runs(st, q.name, q.ret, q.params, q.tys, caps, q.start.script, m);
    lemma_head_func(st, q.name, q.ret, q.params, q.tys, caps);
    crate::weaving::lemma_start_env(st, q.name, q.ret, q.params, q.tys, caps);
    lemma_slots_ready(st, q.start);
    match own {
        None => {
            lemma_block_woven(q.start, fuel, q.body, seen, seen, m);
            lemma_function_own(st, q.start, q.mid);
            lemma_extends(q.start.script, q.mid.script, q.out.script);
            lemma_slots_ready(q.mid, q.out);
            assert(own_blocks(q.out.script, n, q.out.script.len() as int)) by {
                assert forall|i: int| n <= i < q.out.script.len() implies match #[trigger] q.out.script[i] {
                    Cmd::At { block } => n <= block < q.out.script.len(),
                    Cmd::Incoming { phi, .. } => n <= phi < q.out.script.len(),
                    _ => true,
                } by {
                    if i < q.mid.script.len() {
                        assert(q.out.script[i] == q.mid.script[i]);
                    }
                }
            }
        },
        Some(o) => {
            lemma_headed_len(q.start, st.here(), q.params, q.tys, q.t.uncurried);
            crate::weaving::lemma_headed_env(q.start, st.here(), q.params, q.tys, q.t.uncurried);
            let seeds = lemma_headed(q.start, st.here(), q.params, q.tys, q.t.uncurried);
            lemma_loop_entered(q.start);
            lemma_slots_ready(q.start, q.first);
            let base = q.start.script.len() as int + 3;
            assert forall|j: int| 0 <= j < q.t.phis.len() implies #[trigger] q.t.phis[j]
                < q.first.script.len() by {
                assert(q.t.phis[j] == phi_at(base, j));
            }
            lemma_tail_woven(q.first, fuel, q.body, q.t, seen, seen, m);
            lemma_extends(q.start.script, q.first.script, q.out.script);
            lemma_headed_own(st, q, seeds);
        },
    }
    let made = behind_fun(st, q);
    lemma_extends(st.script, q.start.script, q.out.script);
    lemma_fun_embedded(st, q);
}

/// The head of a loop belongs to its function.
proof fn lemma_headed_own(st: St, q: FunCode, seeds: Seq<Val>)
    requires
        st.script.len() <= q.start.script.len(),
        st.script.len() <= q.start.cx.block,
        extends(q.start.script, st.script),
        own_blocks(q.start.script, st.script.len() as int, q.start.script.len() as int),
        q.start.script.len() + 2 * q.params.len() + 16 <= u64::MAX,
        body_laid(
            loop_entered(q.start),
            q.first,
            names_of(q.params),
            q.start.script.len() as int + 3,
            0,
            seeds,
            q.start.cx.block,
        ),
        q.t.phis.len() == q.params.len(),
        forall|j: int|
            0 <= j < q.t.phis.len() ==> #[trigger] q.t.phis[j] == phi_at(
                q.start.script.len() as int + 3,
                j,
            ),
        extends(q.first.script, q.start.script),
        q.first.cx.block == q.start.script.len(),
        tail_woven(q.first, q.out, q.t.phis),
    ensures
        own_blocks(q.out.script, st.script.len() as int, q.out.script.len() as int),
{
    let n = st.script.len() as int;
    let k = q.params.len() as int;
    let s = q.start.script.len() as int;
    let base = s + 3;
    let head = loop_entered(q.start);
    let e = q.out.script.len() as int;
    assert(q.first.script.len() == base + 2 * k);
    assert(head.script.len() == base);
    assert forall|i: int| n <= i < e implies match #[trigger] q.out.script[i] {
        Cmd::At { block } => n <= block < e,
        Cmd::Incoming { phi, .. } => n <= phi < e,
        _ => true,
    } by {
        if i < s {
            assert(q.out.script[i] == q.first.script[i]);
            assert(q.first.script[i] == q.start.script[i]);
        } else if i < base {
            assert(q.out.script[i] == q.first.script[i]);
            assert(q.first.script[i] == head.script[i]);
        } else if i < base + 2 * k {
            assert(q.out.script[i] == q.first.script[i]);
            let j = (i - base) / 2;
            assert(phi_at(base, j) == base + 2 * j);
            assert(q.first.script[phi_at(base, j)] is Phi);
            if (i - base) % 2 == 1 {
                assert(i == phi_at(base, j) + 1);
            } else {
                assert(i == phi_at(base, j));
            }
        } else {
            if let Cmd::Incoming { phi, from, .. } = q.out.script[i] {
                if q.t.phis.contains(phi) {
                    let j = q.t.phis.index_of(phi);
                    assert(q.t.phis[j] == phi);
                    assert(phi == phi_at(base, j));
                }
            }
        }
    }
}

proof fn lemma_fun_embedded(st: St, q: FunCode)
    requires
        st.script.len() < q.out.script.len(),
        extends(q.out.script, st.script),
        extends(q.out.script, q.start.script),
        st.script.len() < q.start.script.len(),
        q.start.script[st.script.len() as int] is Func,
        own_blocks(q.out.script, st.script.len() as int, q.out.script.len() as int),
        !q.out.cx.gc,
        slots_ready(q.out),
    ensures
        embedded(st, behind_fun(st, q)),
        extends(behind_fun(st, q).script, q.out.script),
        ringed(st, behind_fun(st, q)),
        slots_ready(behind_fun(st, q)),
{
    let made = behind_fun(st, q);
    let out = q.out;
    let n = st.script.len() as int;
    let e = made.script.len() as int;
    assert(extends(made.script, out.script));
    lemma_extends(st.script, out.script, made.script);
    assert(made.script[n] == out.script[n]);
    assert(out.script[n] == q.start.script[n]);
    assert forall|i: int| n <= i < e - 1 implies match #[trigger] made.script[i] {
        Cmd::At { block } => n <= block < e - 1,
        Cmd::Incoming { phi, .. } => n <= phi < e - 1,
        _ => true,
    } by {
        assert(made.script[i] == out.script[i]);
    }
    assert(own_blocks(made.script, n, e - 1));
    lemma_slots_ready(out, made);
}

pub(crate) proof fn lemma_closing_woven(
    st: St,
    fuel: nat,
    own: Option<String>,
    lam: Comp,
    seen: Names,
    m: Machine,
) -> (p: Closed)
    requires
        fit(st),
        lam is Lam,
        spoken(lam, seen, seen),
        closing(st, fuel, own, lam) is Ok,
        countable(closing(st, fuel, own, lam)->Ok_0.0),
        m.args.len() == 0,
    ensures
        closed_parts(st, fuel, own, lam, p),
        fit(p.made),
        fit(p.named),
        fit(p.last),
        ringed(st, p.made),
        ringed(p.made, p.named),
        ringed(p.named, p.last),
        ringed(p.last, closing(st, fuel, own, lam)->Ok_0.0),
        laid_in(st, closing(st, fuel, own, lam)->Ok_0.0),
        fit(closing(st, fuel, own, lam)->Ok_0.0),
        ready(closing(st, fuel, own, lam)->Ok_0.0, closing(st, fuel, own, lam)->Ok_0.1),
    decreases lam, 0nat,
{
    let p = lemma_closing_sized(st, fuel, own, lam, seen);
    let (end, v) = closing(st, fuel, own, lam)->Ok_0;
    lemma_chain(lam, seen);
    let q = lemma_lifting_is(st, fuel, own, lam, p.caps, seen);
    assert(plain_param(lam_param(lam)));
    lemma_fun_sized(st, fuel, own, p.caps, q, seen);
    lemma_fun_woven(st, fuel, own, p.caps, q, seen, m);
    lemma_fit_kept(st, p.made);
    assert(run_on(p.made, p.named));
    lemma_run_ringed(p.made, p.named);
    lemma_ringed(st, p.made, p.named);
    lemma_slots_ready(p.made, p.named);
    lemma_fit_kept(st, p.named);
    let r = lemma_speeding_is(p.named, fuel, own, lam, p.caps, seen);
    if all_params(lam).len() >= 2 {
        lemma_fun_sized(p.named, fuel, own, p.caps, r, seen);
        lemma_fun_woven(p.named, fuel, own, p.caps, r, seen, m);
        let done = behind_fun(p.named, r);
        assert(run_on(done, p.last));
        lemma_run_ringed(done, p.last);
        lemma_ringed(p.named, done, p.last);
        lemma_slots_ready(done, p.last);
    } else {
        assert(run_on(p.named, p.last));
        lemma_run_ringed(p.named, p.last);
    }
    lemma_ringed(st, p.named, p.last);
    lemma_fit_kept(st, p.last);
    lemma_run_ringed(p.last, end);
    lemma_ringed(st, p.last, end);
    lemma_ringed_laid(st, end);
    lemma_slots_ready(p.last, end);
    lemma_built_env(p.last, st, fuel, own, lam, p);
    p
}

/// The variables in scope behind a closure are there.
proof fn lemma_built_env(last: St, st: St, fuel: nat, own: Option<String>, lam: Comp, p: Closed)
    requires
        last == p.last,
        closed_parts(st, fuel, own, lam, p),
        env_ready(last),
        apt(last),
        forall|k: int| 0 <= k < p.caps.len() ==> plain_capture(#[trigger] p.caps[k]),
        countable(closing(st, fuel, own, lam)->Ok_0.0),
    ensures
        env_ready(closing(st, fuel, own, lam)->Ok_0.0),
{
    let end = closing(st, fuel, own, lam)->Ok_0.0;
    lemma_build(last, own, p.fun_ty, p.caps, p.entry, p.fast, p.arity);
    assert forall|x: Seq<char>| #[trigger] end.cx.env.get(x) matches Some(e) ==> ready(end, e.value) by {
        match own {
            None => {
                if let Some(e) = last.cx.env.get(x) {
                    assert(ready(last, e.value));
                }
            },
            Some(o) => {
                if x != o@ {
                    assert(end.cx.env.get(x) == last.cx.env.get(x));
                    if let Some(e) = last.cx.env.get(x) {
                        assert(ready(last, e.value));
                    }
                } else {
                    crate::weaving::lemma_built_own(last, own, p.fun_ty, p.caps, p.entry, p.fast, p.arity);
                }
            },
        }
    }
}

pub(crate) proof fn lemma_fit_kept(st: St, end: St)
    requires
        fit(st),
        ringed(st, end),
        end.cx.env == st.cx.env,
        end.cx.resume is None,
        slots_ready(end),
    ensures
        fit(end),
{
    lemma_ringed_laid(st, end);
    lemma_env_kept(st, end);
    lemma_plain_kept(st, end);
}

pub(crate) proof fn lemma_block_woven(st: St, fuel: nat, ir: Ir, held: Names, seen: Names, m: Machine)
    requires
        fit(st),
        held.subset_of(seen),
        spoken_block(ir, held, seen),
        of_ir(st, fuel, ir) is Ok,
        countable(of_ir(st, fuel, ir)->Ok_0.0),
        m.args.len() == 0,
    ensures
        ({
            let (end, v) = of_ir(st, fuel, ir)->Ok_0;
            &&& laid_in(st, end)
            &&& fit(end)
            &&& ready(end, v)
            &&& bare_block(ir) ==> grown(st, end)
        }),
    decreases ir, bind_count(ir) + 1,
{
    lemma_block_is(st, fuel, ir, held, seen);
    let (end, v) = of_ir(st, fuel, ir)->Ok_0;
    match ir {
        Ir::Block { .. } => lemma_rest_woven(st, fuel, ir, 0, held, seen, m),
        Ir::Let { name, ty, layout, comp, rest, .. } => {
            let c = target(comp);
            let (mid, x) = of_bound(st, fuel, name, c)->Ok_0;
            let next = mid.bind(name, x, ty, layout);
            lemma_bound_sized(st, fuel, name, ty, layout, c, held, seen);
            lemma_block_sized(next, fuel, target(rest), held, seen_with(c, seen));
            lemma_bound_woven(st, fuel, name, ty, layout, c, held, seen, m);
            lemma_block_woven(next, fuel, target(rest), held, seen_with(c, seen), m);
            lemma_laid_then(st, next, end);
            if bare_block(ir) {
                lemma_grown(st, next, end);
            }
        },
        Ir::Ret { comp, .. } => lemma_comp_woven(st, fuel, target(comp), held, seen, m),
    }
}

pub(crate) proof fn lemma_rest_woven(
    st: St,
    fuel: nat,
    ir: Ir,
    i: nat,
    held: Names,
    seen: Names,
    m: Machine,
)
    requires
        fit(st),
        ir is Block,
        held.subset_of(seen),
        spoken_rest(ir, i, held, seen),
        of_rest(st, fuel, ir, i) is Ok,
        countable(of_rest(st, fuel, ir, i)->Ok_0.0),
        m.args.len() == 0,
    ensures
        ({
            let (end, v) = of_rest(st, fuel, ir, i)->Ok_0;
            &&& laid_in(st, end)
            &&& fit(end)
            &&& ready(end, v)
            &&& bare_rest(ir, i) ==> grown(st, end)
        }),
    decreases ir, bind_count(ir) - i,
{
    lemma_rest_is(st, fuel, ir, i, held, seen);
    let (end, v) = of_rest(st, fuel, ir, i)->Ok_0;
    if let Ir::Block { binds, comp, .. } = ir {
        if i < binds.len() {
            let b = binds[i as int];
            let c = target(b.comp);
            let (mid, x) = of_bound(st, fuel, b.name, c)->Ok_0;
            let next = mid.bind(b.name, x, b.ty, b.layout);
            lemma_bound_sized(st, fuel, b.name, b.ty, b.layout, c, held, seen);
            lemma_rest_sized(next, fuel, ir, i + 1, held, seen_with(c, seen));
            lemma_bound_woven(st, fuel, b.name, b.ty, b.layout, c, held, seen, m);
            lemma_rest_woven(next, fuel, ir, i + 1, held, seen_with(c, seen), m);
            lemma_laid_then(st, next, end);
            if bare_rest(ir, i) {
                lemma_grown(st, next, end);
            }
        } else {
            lemma_comp_woven(st, fuel, target(comp), held, seen, m);
        }
    }
}

// ── tail position ────────────────────────────────────────────────────────
proof fn lemma_jump_woven(st: St, t: Tail, vs: Seq<Val>)
    requires
        fit(st),
        forall|j: int| 0 <= j < t.phis.len() ==> #[trigger] t.phis[j] < st.script.len(),
    ensures
        tail_woven(st, st.jump(t, vs), t.phis),
        st.jump(t, vs).script.len() == st.script.len() + t.phis.len() + 1,
{
    let n = st.script.len() as int;
    let k = t.phis.len() as int;
    let mid = st.feed(t.phis, vs, st.cx.block, t.phis.len());
    let end = st.jump(t, vs);
    lemma_feed(st, t.phis, vs, st.cx.block, t.phis.len());
    lemma_extends(st.script, mid.script, end.script);
    assert forall|i: int| n <= i < n + k implies #[trigger] end.script[i] == (Cmd::Incoming {
        phi: t.phis[i - n],
        val: vs[i - n],
        from: st.cx.block,
    }) by {
        assert(end.script[i] == mid.script[i]);
        assert(mid.script[st.script.len() + (i - n)] == mid.script[i]);
    }
    assert(end.script[n + k] == (Cmd::Br { to: t.head }));
    lemma_opened(end.script, st.script, n);
    lemma_edges_opened(end.script, n, n + k + 1);
    assert forall|i: int| 0 <= i < end.script.len() implies match #[trigger] end.script[i] {
        Cmd::At { block } => 0 <= block < end.script.len(),
        Cmd::Incoming { phi, .. } => 0 <= phi < end.script.len(),
        _ => true,
    } by {
        if i < n {
            assert(end.script[i] == st.script[i]);
        } else if i < n + k {
            assert(t.phis[i - n] < st.script.len());
        }
    }
    lemma_slots_ready(st, end);
}

pub(crate) proof fn lemma_branch_fit(st: St, c: Val)
    requires
        fit(st),
        st.script.len() + 8 <= u64::MAX,
    ensures
        fit(tail_branch(st, c)),
{
    lemma_tail_branch(st, c);
    lemma_env_kept(st, tail_branch(st, c));
    lemma_plain_kept(st, tail_branch(st, c));
    lemma_slots_ready(st, tail_branch(st, c));
}

/// The way to the second part of a branch in tail position.
pub(crate) proof fn lemma_second_fit(st: St, c: Val, mid: St, phis: Seq<u64>)
    requires
        fit(st),
        st.script.len() + 8 <= u64::MAX,
        tail_woven(tail_branch(st, c), mid, phis),
        mid.cx.resume is None,
    ensures
        fit(tail_turn(st, mid)),
        tail_turn(st, mid).script == mid.script.push(
            Cmd::At { block: (st.script.len() + 2) as u64 },
        ),
        tail_turn(st, mid).cx.env == st.cx.env,
        tail_turn(st, mid).cx.block == st.script.len() + 2,
        st.script.len() + 5 <= mid.script.len(),
{
    lemma_tail_branch(st, c);
    let turn = tail_turn(st, mid);
    let k = mid.script.len() as int;
    assert(turn.script[k] == (Cmd::At { block: (st.script.len() + 2) as u64 }));
    assert(opened(turn.script, k + 1) == (st.script.len() + 2) as u64);
    assert forall|i: int| 0 <= i < turn.script.len() implies match #[trigger] turn.script[i] {
        Cmd::At { block } => 0 <= block < turn.script.len(),
        Cmd::Incoming { phi, .. } => 0 <= phi < turn.script.len(),
        _ => true,
    } by {
        if i < k {
            assert(turn.script[i] == mid.script[i]);
        }
    }
    lemma_env_kept(st, turn);
    lemma_plain_kept(st, turn);
    lemma_slots_ready(mid, turn);
}

proof fn lemma_tail_if_woven(st: St, c: Val, mid: St, end: St, phis: Seq<u64>)
    requires
        fit(st),
        st.script.len() + 8 <= u64::MAX,
        tail_woven(tail_branch(st, c), mid, phis),
        mid.cx.resume is None,
        tail_woven(tail_turn(st, mid), end, phis),
    ensures
        tail_woven(st, end, phis),
{
    lemma_tail_branch(st, c);
    lemma_second_fit(st, c, mid, phis);
    let head = tail_branch(st, c);
    let turn = tail_turn(st, mid);
    let n = st.script.len() as int;
    let k = mid.script.len() as int;
    let e = end.script.len() as int;
    assert(extends(turn.script, mid.script));
    lemma_extends(mid.script, turn.script, end.script);
    lemma_extends(head.script, mid.script, end.script);
    lemma_extends(st.script, head.script, end.script);
    assert forall|i: int| n <= i < e implies match #[trigger] end.script[i] {
        Cmd::At { block } => n <= block < e || block == st.cx.block,
        Cmd::Incoming { phi, from, .. } => n <= phi < e || (phis.contains(phi) && (from
            == st.cx.block || n <= from < e)),
        _ => true,
    } by {
        if i < n + 5 {
            assert(end.script[i] == head.script[i]);
        } else if i < k {
            assert(end.script[i] == mid.script[i]);
        } else if i == k {
            assert(end.script[i] == turn.script[i]);
        }
    }
}

pub(crate) proof fn lemma_tail_woven(
    st: St,
    fuel: nat,
    ir: Ir,
    t: Tail,
    held: Names,
    seen: Names,
    m: Machine,
)
    requires
        fit(st),
        t.frame is None,
        forall|j: int| 0 <= j < t.phis.len() ==> #[trigger] t.phis[j] < st.script.len(),
        held.subset_of(seen),
        spoken_block(ir, held, seen),
        of_tail(st, fuel, ir, t) is Ok,
        countable(of_tail(st, fuel, ir, t)->Ok_0),
        m.args.len() == 0,
    ensures
        tail_woven(st, of_tail(st, fuel, ir, t)->Ok_0, t.phis),
    decreases ir, bind_count(ir) + 1,
{
    lemma_tail_is(st, fuel, ir, t, held, seen);
    let end = of_tail(st, fuel, ir, t)->Ok_0;
    match ir {
        Ir::Block { .. } => lemma_tail_rest_woven(st, fuel, ir, 0, t, held, seen, m),
        Ir::Let { name, ty, layout, comp, rest, .. } => {
            let c = target(comp);
            let (mid, x) = of_bound(st, fuel, name, c)->Ok_0;
            let next = mid.bind(name, x, ty, layout);
            lemma_bound_sized(st, fuel, name, ty, layout, c, held, seen);
            lemma_tail_sized(next, fuel, target(rest), t.behind(name@), held, seen_with(c, seen));
            lemma_bound_woven(st, fuel, name, ty, layout, c, held, seen, m);
            lemma_tail_woven(next, fuel, target(rest), t.behind(name@), held, seen_with(c, seen), m);
            lemma_tail_then(st, next, end, t.phis);
        },
        Ir::Ret { comp, .. } => lemma_tail_comp_woven(st, fuel, target(comp), t, held, seen, m),
    }
}

pub(crate) proof fn lemma_tail_rest_woven(
    st: St,
    fuel: nat,
    ir: Ir,
    i: nat,
    t: Tail,
    held: Names,
    seen: Names,
    m: Machine,
)
    requires
        fit(st),
        t.frame is None,
        forall|j: int| 0 <= j < t.phis.len() ==> #[trigger] t.phis[j] < st.script.len(),
        ir is Block,
        held.subset_of(seen),
        spoken_rest(ir, i, held, seen),
        of_tail_rest(st, fuel, ir, i, t) is Ok,
        countable(of_tail_rest(st, fuel, ir, i, t)->Ok_0),
        m.args.len() == 0,
    ensures
        tail_woven(st, of_tail_rest(st, fuel, ir, i, t)->Ok_0, t.phis),
    decreases ir, bind_count(ir) - i,
{
    lemma_tail_rest_is(st, fuel, ir, i, t, held, seen);
    let end = of_tail_rest(st, fuel, ir, i, t)->Ok_0;
    if let Ir::Block { binds, comp, .. } = ir {
        if i < binds.len() {
            let b = binds[i as int];
            let c = target(b.comp);
            let (mid, x) = of_bound(st, fuel, b.name, c)->Ok_0;
            let next = mid.bind(b.name, x, b.ty, b.layout);
            lemma_bound_sized(st, fuel, b.name, b.ty, b.layout, c, held, seen);
            lemma_tail_rest_sized(next, fuel, ir, i + 1, t, held, seen_with(c, seen));
            lemma_bound_woven(st, fuel, b.name, b.ty, b.layout, c, held, seen, m);
            lemma_tail_rest_woven(next, fuel, ir, i + 1, t, held, seen_with(c, seen), m);
            lemma_tail_then(st, next, end, t.phis);
        } else {
            lemma_tail_comp_woven(st, fuel, target(comp), t.behind_all(binds@), held, seen, m);
        }
    }
}

pub(crate) proof fn lemma_tail_comp_woven(
    st: St,
    fuel: nat,
    comp: Comp,
    t: Tail,
    held: Names,
    seen: Names,
    m: Machine,
)
    requires
        fit(st),
        t.frame is None,
        forall|j: int| 0 <= j < t.phis.len() ==> #[trigger] t.phis[j] < st.script.len(),
        held.subset_of(seen),
        spoken(comp, held, seen),
        of_tail_comp(st, fuel, comp, t) is Ok,
        countable(of_tail_comp(st, fuel, comp, t)->Ok_0),
        m.args.len() == 0,
    ensures
        tail_woven(st, of_tail_comp(st, fuel, comp, t)->Ok_0, t.phis),
    decreases comp, 3nat,
{
    let end = of_tail_comp(st, fuel, comp, t)->Ok_0;
    lemma_tail_comp_sized(st, fuel, comp, t, held, seen);
    let (c, mid) = lemma_tail_comp_is(st, fuel, comp, t, held, seen);
    if calls_itself(comp, t) {
        lemma_jump_woven(st, t, vals_of(st, call_args(comp)));
    } else if comp is If {
        let head = tail_branch(st, c);
        lemma_branch_fit(st, c);
        lemma_tail_branch(st, c);
        lemma_tail_sized(head, fuel, target(comp->If_1), t, seen, seen);
        lemma_plain_kept(st, tail_turn(st, mid));
        lemma_tail_sized(tail_turn(st, mid), fuel, target(comp->If_2), t, seen, seen);
        lemma_tail_woven(head, fuel, target(comp->If_1), t, seen, seen, m);
        lemma_second_fit(st, c, mid, t.phis);
        lemma_tail_woven(tail_turn(st, mid), fuel, target(comp->If_2), t, seen, seen, m);
        lemma_tail_if_woven(st, c, mid, end, t.phis);
    } else {
        let (next, v) = of_comp(st, fuel, comp)->Ok_0;
        lemma_comp_sized(st, fuel, comp, held, seen);
        assert(next.return_cell(None, v) == Ok::<St, CodegenError>(next.put(Cmd::Ret { val: v })));
        lemma_comp_woven(st, fuel, comp, held, seen, m);
        crate::shape::lemma_put(next, Cmd::Ret { val: v });
        lemma_slots_ready(next, end);
        lemma_laid_then(st, next, end);
    }
}

} // verus!
