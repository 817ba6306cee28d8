//! What is proved of handlers as a whole: what a handler covers gives its value to the
//! return clause, or leaves the handler with what an aborting clause means.
use crate::applying::goes_on;
use crate::blocks::{any_abort, any_reified};
use crate::covering::{
    act_handled, acts_so, exits, handle_meaning, lemma_act_block_len, lemma_block_never_left,
    lemma_handled_grown, lemma_handled_is, lemma_handled_len, lemma_handled_runs, of_handled,
    plain_handle, puts_in, ret_begun, Acted,
};
use crate::error::CodegenError;
use crate::ir::{target, Comp};
use crate::meaning::{extends, opened, ready, run, Machine};
use crate::programs::{Meant, Vars};
use crate::running::{
    at_hand, followed, holds_part, leads_in, lemma_leads, lemma_leads_to_trap, lemma_run_leads,
    lemma_seek_at, models, traps_in,
};
use crate::shape::{
    env_ready, lemma_env_kept, lemma_extends, lemma_ir_len, lemma_opened, of_comp, settled,
};
use crate::state::{Exit, St};
use crate::target::{Cmd, Id, Title, Ty, Val};
use vstd::prelude::*;

verus! {

/// The code goes on at `end` with the word that was meant, and nothing but the cell
/// `slot` was written to; or it traps.
pub open spec fn gives_so(
    script: Seq<Cmd>,
    n: int,
    m: Machine,
    end: int,
    v: Val,
    slot: u64,
    meant: Meant,
    after: Machine,
    j: nat,
) -> bool {
    match meant {
        Meant::Word(w) => {
            &&& leads_in(script, n, m, end, after, j)
            &&& after.value(v) == w
            &&& goes_on(m, after, n)
            &&& after.objects == m.objects
            &&& forall|x: u64| x != slot ==> #[trigger] after.mem[x] == m.mem[x]
        },
        Meant::Trap => traps_in(script, n, m, j),
        Meant::Open => true,
    }
}

/// The code of a handler gives what its return clause means of the value of what it
/// covers, whose operations have the values that their clauses resume with; or, where
/// an operation's clause does not resume, what that clause means. It writes to one cell
/// at most, which it finds room for.
pub proof fn a_handler_gives_what_its_clauses_mean(
    st: St,
    fuel: nat,
    comp: Comp,
    vars: Vars,
    turns: nat,
    script: Seq<Cmd>,
    m: Machine,
) -> (r: (Machine, nat))
    requires
        plain_handle(comp),
        !st.cx.gc,
        at_hand(st, vars, m),
        of_comp(st, fuel, comp) is Ok,
        holds_part(script, st, of_comp(st, fuel, comp)->Ok_0.0),
    ensures
        gives_so(
            script,
            st.script.len() as int,
            m,
            of_comp(st, fuel, comp)->Ok_0.0.script.len() as int,
            of_comp(st, fuel, comp)->Ok_0.1,
            (m.room)(8, m.store()),
            handle_meaning(comp, vars, turns),
            r.0,
            r.1,
        ),
{
    let n = st.script.len() as int;
    let handler = target(comp->handler);
    let ops = handler.ops@;
    assert(of_comp(st, fuel, comp) == st.handle(fuel, comp)) by {
        reveal(of_comp);
    }
    if any_abort(ops) {
        lemma_aborting_runs(st, fuel, comp, vars, turns, script, m)
    } else {
        assert(of_comp(st, fuel, comp) == of_handled(st, fuel, comp, None)) by {
            reveal(of_handled);
        }
        lemma_block_never_left(target(comp->scrutinee), ops, vars, turns);
        let (after, j) = lemma_handled_runs(st, fuel, comp, None, vars, turns, script, 0, 0, m);
        (after, j)
    }
}

/// The state in which what a handler covers begins that an operation can leave.
pub open spec fn slotted(st: St) -> (St, Exit) {
    let (s1, slot) = st.def(Cmd::Alloca { ty: Ty::I64, label: "handle.slot" }, Ty::Ptr);
    let (s2, block) = s1.new_block("handle.exit");
    (s2, Exit { block, slot })
}

/// The parts of the code of a handler that an operation can leave.
proof fn lemma_aborting_is(st: St, fuel: nat, comp: Comp) -> (r: (St, Val))
    requires
        comp is Handle,
        !any_reified((*comp->handler).ops@),
        any_abort((*comp->handler).ops@),
        st.handle(fuel, comp) is Ok,
    ensures
        ({
            let (s2, exit) = slotted(st);
            &&& of_handled(s2, fuel, comp, Some(exit)) == Ok::<(St, Val), CodegenError>(r)
            &&& st.handle(fuel, comp) == Ok::<(St, Val), CodegenError>(
                r.0.store(exit.slot, r.1).br(exit.block).at(exit.block).load(
                    Ty::I64,
                    exit.slot,
                    "handle.result",
                ),
            )
        }),
{
    reveal(of_handled);
    let (s2, exit) = slotted(st);
    of_handled(s2, fuel, comp, Some(exit))->Ok_0
}

/// How the code of a handler lies in the script that an operation can leave.
pub open spec fn aborting_laid(
    script: Seq<Cmd>,
    n: int,
    k: int,
    s2: St,
    out: St,
    hv: Val,
    exit: Exit,
) -> bool {
    &&& exit.block == n + 1
    &&& exit.slot.id == Id::Reg(n as u64)
    &&& s2.script.len() == n + 2
    &&& out.script.len() == k
    &&& n + 2 <= k
    &&& k + 4 <= script.len()
    &&& k + 4 + 64 <= u64::MAX
    &&& holds_part(script, s2, out)
    &&& script[n] == (Cmd::Alloca { ty: Ty::I64, label: "handle.slot" })
    &&& script[n + 1] is Block
    &&& script[k] == (Cmd::Store { ptr: exit.slot, val: hv, align: 0 })
    &&& script[k + 1] == (Cmd::Br { to: exit.block })
    &&& script[k + 2] == (Cmd::At { block: exit.block })
    &&& script[k + 3] == (Cmd::Load {
        ty: Ty::I64,
        ptr: exit.slot,
        align: 0,
        label: Title::Fixed("handle.result"),
    })
}

#[verifier::rlimit(40)]
#[verifier::spinoff_prover]
proof fn lemma_aborting_laid(st: St, fuel: nat, comp: Comp, script: Seq<Cmd>, out: St, hv: Val)
    requires
        plain_handle(comp),
        !st.cx.gc,
        settled(st),
        env_ready(st),
        ({
            let (s2, exit) = slotted(st);
            let end = out.store(exit.slot, hv).br(exit.block).at(exit.block).load(
                Ty::I64,
                exit.slot,
                "handle.result",
            ).0;
            &&& of_handled(s2, fuel, comp, Some(exit)) == Ok::<(St, Val), CodegenError>((out, hv))
            &&& holds_part(script, st, end)
        }),
    ensures
        ({
            let (s2, exit) = slotted(st);
            aborting_laid(
                script,
                st.script.len() as int,
                out.script.len() as int,
                s2,
                out,
                hv,
                exit,
            )
        }),
{
    let n = st.script.len() as int;
    let k = out.script.len() as int;
    let (s2, exit) = slotted(st);
    let end = out.store(exit.slot, hv).br(exit.block).at(exit.block).load(
        Ty::I64,
        exit.slot,
        "handle.result",
    ).0;
    assert(end.script.len() == k + 4);
    assert(s2.script.len() == n + 2);
    lemma_slotted_len(s2, fuel, comp, exit, n);
    lemma_slotted(st, s2, exit);
    lemma_handled_grown(s2, fuel, comp, Some(exit));
    assert(extends(end.script, out.script));
    lemma_extends(out.script, end.script, script);
    lemma_extends(s2.script, out.script, script);
    assert(script[n] == s2.script[n] && script[n + 1] == s2.script[n + 1]);
    assert(script[k] == end.script[k] && script[k + 1] == end.script[k + 1] && script[k + 2]
        == end.script[k + 2] && script[k + 3] == end.script[k + 3]);
    assert(opened(end.script, k + 4) == exit.block) by {
        reveal_with_fuel(opened, 3);
    }
    lemma_opened(script, end.script, k + 4);
    assert(followed(script, n + 2, k)) by {
        assert forall|i: int| k <= i < script.len() implies (#[trigger] script[i] matches Cmd::At {
            block,
        } ==> block < n + 2 || k <= block || block == opened(script, k)) by {}
    }
}

/// Where the code of a handler ends that an operation can leave.
proof fn lemma_aborting_end(out: St, hv: Val, exit: Exit)
    requires
        out.script.len() + 8 <= u64::MAX,
    ensures
        ({
            let (end, v) = out.store(exit.slot, hv).br(exit.block).at(exit.block).load(
                Ty::I64,
                exit.slot,
                "handle.result",
            );
            &&& end.script.len() == out.script.len() + 4
            &&& v == Val { id: Id::Reg((out.script.len() + 3) as u64), ty: Ty::I64 }
        }),
{
}

/// What is at hand once the cell of the result is found.
proof fn lemma_slotted_ready(st: St, s2: St, exit: Exit, vars: Vars, m: Machine)
    requires
        at_hand(st, vars, m),
        !st.cx.gc,
        st.script.len() + 8 <= u64::MAX,
        (s2, exit) == slotted(st),
    ensures
        at_hand(s2, vars, m.found(st.script.len() as int)),
        !s2.cx.gc,
        exit.block < s2.script.len(),
        ready(s2, exit.slot),
        s2.script.len() == st.script.len() + 2,
        puts_in(Some(exit), m.found(st.script.len() as int), (m.room)(8, m.store())),
        m.found(st.script.len() as int).args == m.args,
{
    let m1 = m.found(st.script.len() as int);
    lemma_slotted(st, s2, exit);
    assert(models(s2, m1, vars)) by {
        assert forall|x: Seq<char>| #[trigger]
            s2.cx.env.get(x) matches Some(e) ==> m1.value(e.value) == vars[x] by {
            if let Some(e) = st.cx.env.get(x) {
                assert(ready(st, e.value));
            }
        }
    }
}

/// The cell of the result is found.
proof fn lemma_slot_found(script: Seq<Cmd>, n: int, m: Machine)
    requires
        0 <= n,
        n + 2 <= script.len(),
        script[n] == (Cmd::Alloca { ty: Ty::I64, label: "handle.slot" }),
        script[n + 1] is Block,
    ensures
        leads_in(script, n, m, n + 2, m.found(n), 0),
{
    let m1 = m.found(n);
    assert(run(script, n, m) == run(script, n + 1, m1));
    assert(run(script, n + 1, m1) == run(script, n + 2, m1));
    lemma_run_leads(script, n, m, n + 2, m1);
}

proof fn lemma_exits_behind(
    script: Seq<Cmd>,
    n: int,
    k: int,
    s2: St,
    out: St,
    hv: Val,
    exit: Exit,
)
    requires
        0 <= n,
        aborting_laid(script, n, k, s2, out, hv, exit),
    ensures
        exits(script, Some(exit), k, k + 2),
{
    assert(script[k] is Store && script[k + 1] is Br);
}

proof fn lemma_handle_meant(comp: Comp, vars: Vars, turns: nat)
    requires
        comp is Handle,
    ensures
        handle_meaning(comp, vars, turns) == (match act_handled(comp, vars, turns) {
            Acted::Went(w, _) => Meant::Word(w),
            Acted::Left(w) => Meant::Word(w),
            Acted::Trap => Meant::Trap,
            Acted::Open => Meant::Open,
        }),
{
}

/// The result is written to its cell, and the code goes on behind the handler.
proof fn lemma_result_kept(
    script: Seq<Cmd>,
    k: int,
    hv: Val,
    exit: Exit,
    slot: u64,
    w: u64,
    m: Machine,
) -> (after: Machine)
    requires
        0 <= k,
        k + 4 <= script.len(),
        k + 4 <= u64::MAX,
        exit.block < k,
        script[k] == (Cmd::Store { ptr: exit.slot, val: hv, align: 0 }),
        script[k + 1] == (Cmd::Br { to: exit.block }),
        script[k + 2] == (Cmd::At { block: exit.block }),
        m.value(exit.slot) == slot,
        m.value(hv) == w,
    ensures
        run(script, k, m) == run(script, k + 2, after),
        after == (Machine { mem: m.mem.insert(slot, w), ..m }).left(opened(script, k + 1)),
{
    let a = Machine { mem: m.mem.insert(slot, w), ..m };
    let b = a.left(opened(script, k + 1));
    lemma_seek_at(script, exit.block, k + 2, k + 2);
    assert(run(script, k, m) == run(script, k + 1, a));
    assert(run(script, k + 1, a) == run(script, k + 2, b));
    b
}

#[verifier::rlimit(40)]
#[verifier::spinoff_prover]
proof fn lemma_aborting_runs(
    st: St,
    fuel: nat,
    comp: Comp,
    vars: Vars,
    turns: nat,
    script: Seq<Cmd>,
    m: Machine,
) -> (r: (Machine, nat))
    requires
        plain_handle(comp),
        any_abort((*comp->handler).ops@),
        !st.cx.gc,
        at_hand(st, vars, m),
        of_comp(st, fuel, comp) == st.handle(fuel, comp),
        of_comp(st, fuel, comp) is Ok,
        holds_part(script, st, of_comp(st, fuel, comp)->Ok_0.0),
    ensures
        gives_so(
            script,
            st.script.len() as int,
            m,
            of_comp(st, fuel, comp)->Ok_0.0.script.len() as int,
            of_comp(st, fuel, comp)->Ok_0.1,
            (m.room)(8, m.store()),
            handle_meaning(comp, vars, turns),
            r.0,
            r.1,
        ),
{
    let n = st.script.len() as int;
    let (s2, exit) = slotted(st);
    let (out, hv) = lemma_aborting_is(st, fuel, comp);
    let k = out.script.len() as int;
    let slot = (m.room)(8, m.store());
    lemma_aborting_laid(st, fuel, comp, script, out, hv);
    lemma_aborting_end(out, hv, exit);
    lemma_slotted_ready(st, s2, exit, vars, m);
    lemma_slot_found(script, n, m);
    lemma_exits_behind(script, n, k, s2, out, hv, exit);
    let m1 = m.found(n);
    let (mid, j) = lemma_handled_runs(
        s2,
        fuel,
        comp,
        Some(exit),
        vars,
        turns,
        script,
        k + 2,
        slot,
        m1,
    );
    let acted = act_handled(comp, vars, turns);
    lemma_handle_meant(comp, vars, turns);
    lemma_left_with(script, n, k, s2, out, hv, exit, slot, acted, m, m1, mid, j)
}

/// The result of a handler is read behind it, whichever way led there.
#[verifier::rlimit(40)]
#[verifier::spinoff_prover]
proof fn lemma_left_with(
    script: Seq<Cmd>,
    n: int,
    k: int,
    s2: St,
    out: St,
    hv: Val,
    exit: Exit,
    slot: u64,
    acted: Acted,
    m: Machine,
    m1: Machine,
    mid: Machine,
    j: nat,
) -> (r: (Machine, nat))
    requires
        0 <= n,
        m.args.len() == 0,
        aborting_laid(script, n, k, s2, out, hv, exit),
        slot == (m.room)(8, m.store()),
        m1 == m.found(n),
        leads_in(script, n, m, n + 2, m1, 0),
        acts_so(script, n + 2, m1, k, hv, k + 2, slot, acted, mid, j),
    ensures
        gives_so(
            script,
            n,
            m,
            k + 4,
            Val { id: Id::Reg((k + 3) as u64), ty: Ty::I64 },
            slot,
            match acted {
                Acted::Went(w, _) => Meant::Word(w),
                Acted::Left(w) => Meant::Word(w),
                Acted::Trap => Meant::Trap,
                Acted::Open => Meant::Open,
            },
            r.0,
            r.1,
        ),
{
    match acted {
        Acted::Went(w, _) => {
            lemma_leads(script, n, m, n + 2, m1, 0, k, mid, j);
            assert(mid.regs[n as u64] == m1.regs[n as u64]);
            let b = lemma_result_kept(script, k, hv, exit, slot, w, mid);
            let after = lemma_result_read(script, k, exit, slot, w, b);
            lemma_run_leads(script, k, mid, k + 4, after);
            lemma_leads(script, n, m, k, mid, j, k + 4, after, 0);
            assert(goes_on(m, after, n)) by {
                assert forall|i: u64| i < n implies after.regs[i] == #[trigger] m.regs[i] by {
                    assert(m1.regs[i] == m.regs[i]);
                    assert(mid.regs[i] == m1.regs[i]);
                }
            }
            (after, j)
        },
        Acted::Left(w) => {
            lemma_leads(script, n, m, n + 2, m1, 0, k + 2, mid, j);
            assert(mid.regs[n as u64] == m1.regs[n as u64]);
            let after = lemma_result_read(script, k, exit, slot, w, mid);
            lemma_run_leads(script, k + 2, mid, k + 4, after);
            lemma_leads(script, n, m, k + 2, mid, j, k + 4, after, 0);
            assert(goes_on(m, after, n)) by {
                assert forall|i: u64| i < n implies after.regs[i] == #[trigger] m.regs[i] by {
                    assert(m1.regs[i] == m.regs[i]);
                    assert(mid.regs[i] == m1.regs[i]);
                }
            }
            (after, j)
        },
        Acted::Trap => {
            lemma_leads_to_trap(script, n, m, n + 2, m1, 0, j);
            (mid, j)
        },
        Acted::Open => (mid, j),
    }
}

proof fn lemma_slotted_len(s2: St, fuel: nat, comp: Comp, exit: Exit, n: int)
    requires
        plain_handle(comp),
        !s2.cx.gc,
        0 <= n,
        s2.script.len() == n + 2,
        exit.block == (n + 1) as u64,
        exit.slot.id == Id::Reg(n as u64),
        of_handled(s2, fuel, comp, Some(exit)) is Ok,
    ensures
        s2.script.len() <= of_handled(s2, fuel, comp, Some(exit))->Ok_0.0.script.len(),
{
    if n + 2 <= u64::MAX {
        lemma_handled_len(s2, fuel, comp, Some(exit));
    } else {
        let handler = target(comp->handler);
        let (behind, v) = lemma_handled_is(s2, fuel, comp, Some(exit));
        let begun = s2.push_handler(handler, Some(exit));
        lemma_wide(n);
        lemma_act_block_len(begun, fuel, target(comp->scrutinee), handler.ops@, Some(exit));
        lemma_ir_len(ret_begun(s2, handler, behind, v), fuel, target(handler.ret.body));
    }
}

proof fn lemma_wide(n: int)
    requires
        0 <= n,
        n + 2 > u64::MAX,
    ensures
        ((n + 1) as u64) < n + 2,
        (n as u64) < n + 2,
{
}

proof fn lemma_slotted(st: St, s2: St, exit: Exit)
    requires
        settled(st),
        env_ready(st),
        st.script.len() + 8 <= u64::MAX,
        (s2, exit) == slotted(st),
    ensures
        settled(s2),
        env_ready(s2),
        exit.block < s2.script.len(),
        ready(s2, exit.slot),
        s2.script[st.script.len() as int] == (Cmd::Alloca { ty: Ty::I64, label: "handle.slot" }),
        s2.script[st.script.len() as int + 1] is Block,
        extends(s2.script, st.script),
{
    let s1 = st.put(Cmd::Alloca { ty: Ty::I64, label: "handle.slot" });
    crate::shape::lemma_put(st, Cmd::Alloca { ty: Ty::I64, label: "handle.slot" });
    crate::shape::lemma_put(s1, Cmd::Block { func: st.cx.func, label: "handle.exit" });
    lemma_env_kept(st, s2);
    lemma_extends(st.script, s1.script, s2.script);
}

/// Behind the handler its result is read.
proof fn lemma_result_read(script: Seq<Cmd>, k: int, exit: Exit, slot: u64, w: u64, m: Machine) -> (after: Machine)
    requires
        0 <= k,
        k + 4 <= script.len(),
        k + 4 <= u64::MAX,
        script[k + 2] == (Cmd::At { block: exit.block }),
        script[k + 3] == (Cmd::Load {
            ty: Ty::I64,
            ptr: exit.slot,
            align: 0,
            label: Title::Fixed("handle.result"),
        }),
        m.value(exit.slot) == slot,
        m.mem[slot] == w,
    ensures
        run(script, k + 2, m) == run(script, k + 4, after),
        after == m.set(k + 3, w),
{
    let after = m.set(k + 3, w);
    assert(run(script, k + 2, m) == run(script, k + 3, m));
    assert(run(script, k + 3, m) == run(script, k + 4, after));
    after
}

} // verus!
