//! What is proved of programs of integers: the code that is emitted for them
//! computes what they mean.
use crate::analysis::performs_gc;
use crate::blocks::{LoopHead, Param};
use crate::emit::{export, program, LibExport};
use crate::error::CodegenError;
use crate::ir::{target, Atom, BinOp, Comp, Ir, IrBind, LoopVar, Row, Type, ValueLayout};
use crate::layout::LoopVarStorage;
use crate::meaning::{
    edge, extends, flag, integer_code_computes_the_operation, keeps, opened, ready, run, runs, seek,
    yields, Machine, Outcome,
};
use crate::programs::{
    atom_word, comp_meaning, init_words, ir_meaning, known_ir, loop_meaning, op_meaning,
    plain_binds, plain_comp, plain_ir, plain_steps, plain_var, step_words, vars_from, vars_with,
    Meant, Vars,
};
use crate::shape::{
    all_scalar, countable, edges_laid, env_ready, grown, heads_laid, if_head, if_tail, if_turn,
    laid_in, lemma_atom, lemma_atom_ready, lemma_bin, lemma_binds_grown, lemma_binds_len,
    lemma_bound, lemma_comp_grown, lemma_comp_len, lemma_edges_kind, lemma_env_kept, lemma_extends,
    lemma_head, lemma_head_settled, lemma_heads_kind, lemma_if_grown, lemma_if_laid,
    lemma_int_bin_len, lemma_ir_grown, lemma_ir_len, lemma_loop_around, lemma_loop_blocks,
    lemma_loop_body_settled, lemma_loop_close, lemma_loop_head_gc, lemma_loop_head_grown,
    lemma_loop_len, lemma_loop_out_settled, lemma_of_atom, lemma_of_bin, lemma_of_binds,
    lemma_of_block, lemma_of_if, lemma_of_ir, lemma_of_let, lemma_of_loop, lemma_of_ret,
    lemma_of_steps, lemma_opened, lemma_own_blocks, lemma_plain_bind, lemma_plain_step,
    lemma_steps_grown, lemma_steps_len, lemma_turn, loop_around, loop_opened, nested_in, of_binds,
    of_comp, of_ir, of_steps, own_blocks, phi_at, programs_of_integers_are_lowered, settled,
    LoopParts,
};
use crate::state::St;
use crate::target::{constant, Cmd, FuncName, Id, IntPred, Title, Ty, Val};
use std::rc::Rc;
use vstd::prelude::*;

verus! {

// ── what code does ───────────────────────────────────────────────────────
/// The machine holds the words of the variables in scope.
pub open spec fn models(st: St, m: Machine, vars: Vars) -> bool {
    &&& m.args.len() == 0
    &&& forall|x: Seq<char>| #[trigger]
        st.cx.env.get(x) matches Some(e) ==> m.value(e.value) == vars[x]
}

/// The code goes on at `end` with this machine, once it went back `j` times.
pub open spec fn leads_in(
    script: Seq<Cmd>,
    n: int,
    m: Machine,
    end: int,
    after: Machine,
    j: nat,
) -> bool {
    forall|t: nat|
        t >= j ==> #[trigger] runs(script, n, m, t) == runs(script, end, after, (t - j) as nat)
}

/// The code ends in a trap, once it went back `j` times.
pub open spec fn traps_in(script: Seq<Cmd>, n: int, m: Machine, j: nat) -> bool {
    forall|t: nat| t >= j ==> #[trigger] runs(script, n, m, t) is Trap
}

/// The code from `n` to `end` does what was meant, and leaves what lies before `low`.
pub open spec fn done_by(
    script: Seq<Cmd>,
    n: int,
    m: Machine,
    end: int,
    v: Val,
    meant: Meant,
    low: int,
    after: Machine,
    j: nat,
) -> bool {
    match meant {
        Meant::Word(w) => keeps(m, after, low) && after.value(v) == w && leads_in(
            script,
            n,
            m,
            end,
            after,
            j,
        ),
        Meant::Trap => traps_in(script, n, m, j),
        Meant::Open => true,
    }
}

/// What follows enters none of the blocks of this part.
pub open spec fn apart(script: Seq<Cmd>, from: int, to: int) -> bool {
    forall|i: int|
        to <= i < script.len() ==> (#[trigger] script[i] matches Cmd::At { block } ==> block < from
            || to <= block)
}

/// What follows enters none of the blocks of this part, but for the one that it goes
/// on in.
pub open spec fn followed(script: Seq<Cmd>, from: int, to: int) -> bool {
    forall|i: int|
        to <= i < script.len() ==> (#[trigger] script[i] matches Cmd::At { block } ==> block < from
            || to <= block || block == opened(script, to))
}

/// The block that is open behind a part was open before it or is one of its own.
pub(crate) proof fn lemma_opened_own(script: Seq<Cmd>, mid: int, to: int)
    requires
        0 <= mid <= to <= script.len(),
        own_blocks(script, mid, to),
    ensures
        opened(script, to) == opened(script, mid) || mid <= opened(script, to) < to,
    decreases to,
{
    if mid < to {
        if !(script[to - 1] is At) {
            lemma_opened_before(script, mid, to, to - 1);
        }
    }
}

proof fn lemma_opened_before(script: Seq<Cmd>, mid: int, to: int, i: int)
    requires
        0 <= mid <= i <= to <= script.len(),
        own_blocks(script, mid, to),
    ensures
        opened(script, i) == opened(script, mid) || mid <= opened(script, i) < to,
    decreases i,
{
    if mid < i {
        if !(script[i - 1] is At) {
            lemma_opened_before(script, mid, to, i - 1);
        }
    }
}

pub(crate) proof fn lemma_apart(script: Seq<Cmd>, from: int, mid: int, to: int)
    requires
        0 <= from <= mid <= to <= script.len(),
        own_blocks(script, mid, to),
        followed(script, from, to),
    ensures
        followed(script, from, mid),
        followed(script, mid, to),
{
    lemma_opened_own(script, mid, to);
}

pub(crate) proof fn lemma_leads(
    script: Seq<Cmd>,
    n: int,
    m: Machine,
    k: int,
    mid: Machine,
    i: nat,
    end: int,
    after: Machine,
    j: nat,
)
    requires
        leads_in(script, n, m, k, mid, i),
        leads_in(script, k, mid, end, after, j),
    ensures
        leads_in(script, n, m, end, after, i + j),
{
    assert forall|t: nat| t >= i + j implies #[trigger] runs(script, n, m, t) == runs(
        script,
        end,
        after,
        (t - (i + j)) as nat,
    ) by {
        assert(runs(script, n, m, t) == runs(script, k, mid, (t - i) as nat));
    }
}

pub(crate) proof fn lemma_leads_to_trap(
    script: Seq<Cmd>,
    n: int,
    m: Machine,
    k: int,
    mid: Machine,
    i: nat,
    j: nat,
)
    requires
        leads_in(script, n, m, k, mid, i),
        traps_in(script, k, mid, j),
    ensures
        traps_in(script, n, m, i + j),
{
    assert forall|t: nat| t >= i + j implies #[trigger] runs(script, n, m, t) is Trap by {
        assert(runs(script, n, m, t) == runs(script, k, mid, (t - i) as nat));
    }
}

pub(crate) proof fn lemma_run_leads(script: Seq<Cmd>, n: int, m: Machine, end: int, after: Machine)
    requires
        run(script, n, m) == run(script, end, after),
    ensures
        leads_in(script, n, m, end, after, 0),
{
}

pub(crate) proof fn lemma_back_leads(script: Seq<Cmd>, n: int, m: Machine, at: int, after: Machine)
    requires
        run(script, n, m) == Outcome::Back(at, after),
    ensures
        leads_in(script, n, m, at, after, 1),
{
}

pub(crate) proof fn lemma_value_kept(st: St, v: Val, m: Machine, after: Machine)
    requires
        ready(st, v),
        keeps(m, after, st.script.len() as int),
    ensures
        after.value(v) == m.value(v),
{
}

pub(crate) proof fn lemma_keeps(a: Machine, b: Machine, c: Machine, n: int, k: int)
    requires
        keeps(a, b, n),
        keeps(b, c, k),
        n <= k,
    ensures
        keeps(a, c, n),
{
    assert forall|i: u64| i < n implies c.regs[i] == #[trigger] a.regs[i] by {
        assert(b.regs[i] == a.regs[i]);
        assert(c.regs[i] == b.regs[i]);
    }
}

pub(crate) proof fn lemma_atom_word(st: St, a: Atom, m: Machine, vars: Vars)
    requires
        !(a is Str),
        models(st, m, vars),
        st.atom(a) is Ok,
    ensures
        m.value(st.atom(a)->Ok_0.1) == atom_word(a, vars),
{
}

/// The variables keep their words.
pub(crate) proof fn lemma_models_kept(st: St, end: St, m: Machine, after: Machine, vars: Vars)
    requires
        env_ready(st),
        models(st, m, vars),
        end.cx.env == st.cx.env,
        keeps(m, after, st.script.len() as int),
    ensures
        models(end, after, vars),
{
    assert forall|x: Seq<char>| #[trigger]
        end.cx.env.get(x) matches Some(e) ==> after.value(e.value) == vars[x] by {
        if let Some(e) = st.cx.env.get(x) {
            lemma_value_kept(st, e.value, m, after);
        }
    }
}

/// A variable that is bound has its word.
pub(crate) proof fn lemma_models_bound(
    st: St,
    name: String,
    v: Val,
    ty: Rc<Type>,
    layout: ValueLayout,
    m: Machine,
    vars: Vars,
)
    requires
        models(st, m, vars),
    ensures
        models(st.bind(name, v, ty, layout), m, vars.insert(name@, m.value(v))),
{
    let end = st.bind(name, v, ty, layout);
    assert forall|x: Seq<char>| #[trigger]
        end.cx.env.get(x) matches Some(e) ==> m.value(e.value) == vars.insert(
            name@,
            m.value(v),
        )[x] by {
        if name@ != x {
            assert(end.cx.env.get(x) == st.cx.env.get(x));
        }
    }
}

/// What follows goes on where the code before it ended.
pub(crate) proof fn lemma_follows(
    script: Seq<Cmd>,
    n: int,
    m: Machine,
    k: int,
    mid: Machine,
    i: nat,
    end: int,
    v: Val,
    meant: Meant,
    low: int,
    high: int,
    after: Machine,
    j: nat,
)
    requires
        low <= high,
        keeps(m, mid, low),
        leads_in(script, n, m, k, mid, i),
        done_by(script, k, mid, end, v, meant, high, after, j),
    ensures
        done_by(script, n, m, end, v, meant, low, after, i + j),
{
    match meant {
        Meant::Word(w) => {
            lemma_keeps(m, mid, after, low, high);
            lemma_leads(script, n, m, k, mid, i, end, after, j);
        },
        Meant::Trap => lemma_leads_to_trap(script, n, m, k, mid, i, j),
        Meant::Open => {},
    }
}

/// A jump goes to the one place where its block is entered.
pub(crate) proof fn lemma_seek_at(script: Seq<Cmd>, block: u64, i: int, p: int)
    requires
        0 <= i <= p < script.len(),
        script[p] == (Cmd::At { block }),
        forall|j: int| i <= j < p ==> #[trigger] script[j] != (Cmd::At { block }),
    ensures
        seek(script, block, i) == p,
    decreases p - i,
{
    if i < p {
        lemma_seek_at(script, block, i + 1, p);
    }
}

/// The commands of a branch around its parts.
pub open spec fn if_around(
    script: Seq<Cmd>,
    n: int,
    t: int,
    e: int,
    c: Val,
    a: Val,
    b: Val,
    a_end: u64,
    b_end: u64,
) -> bool {
    let test = Val { id: Id::Reg(n as u64), ty: Ty::I1 };
    &&& 0 <= n
    &&& n + 6 <= t
    &&& t + 2 <= e
    &&& e + 5 <= script.len()
    &&& e + 64 <= u64::MAX
    &&& script[n] == (Cmd::IntTest { pred: IntPred::Ne, a: c, b: constant(0), label: "if.test" })
    &&& script[n + 1] is Block
    &&& script[n + 2] is Block
    &&& script[n + 3] is Block
    &&& script[n + 4] == (Cmd::CondBr { cond: test, yes: (n + 1) as u64, no: (n + 2) as u64 })
    &&& script[n + 5] == (Cmd::At { block: (n + 1) as u64 })
    &&& nested_in(script, n + 6, t, (n + 1) as u64)
    &&& script[t] == (Cmd::Br { to: (n + 3) as u64 })
    &&& script[t + 1] == (Cmd::At { block: (n + 2) as u64 })
    &&& nested_in(script, t + 2, e, (n + 2) as u64)
    &&& script[e] == (Cmd::Br { to: (n + 3) as u64 })
    &&& script[e + 1] == (Cmd::At { block: (n + 3) as u64 })
    &&& script[e + 2] is Phi
    &&& script[e + 3] == (Cmd::Incoming { phi: (e + 2) as u64, val: a, from: a_end })
    &&& script[e + 4] == (Cmd::Incoming { phi: (e + 2) as u64, val: b, from: b_end })
    &&& opened(script, t) == a_end
    &&& opened(script, e) == b_end
    &&& a_end != b_end
}

proof fn lemma_nested_in(script: Seq<Cmd>, start: Seq<Cmd>, from: int, to: int, block: u64)
    requires
        0 <= from,
        to <= start.len(),
        extends(script, start),
        nested_in(start, from, to, block),
    ensures
        nested_in(script, from, to, block),
{
    assert forall|i: int| from <= i < to implies match #[trigger] script[i] {
        Cmd::At { block: b } => from <= b < to || b == block,
        Cmd::Incoming { phi, .. } => from <= phi < to,
        _ => true,
    } by {
        assert(script[i] == start[i]);
    }
}

#[verifier::rlimit(40)]
pub(crate) proof fn lemma_if_around(st: St, c: Val, t1: St, a: Val, e1: St, b: Val, script: Seq<Cmd>)
    requires
        countable(e1),
        settled(st),
        laid_in(if_head(st, c).0, t1),
        laid_in(if_turn(st, c, t1), e1),
        extends(script, if_tail(st, c, t1, a, e1, b).0.script),
    ensures
        if_around(
            script,
            st.script.len() as int,
            t1.script.len() as int,
            e1.script.len() as int,
            c,
            a,
            b,
            t1.cx.block,
            e1.cx.block,
        ),
        extends(script, t1.script),
        extends(script, e1.script),
{
    let n = st.script.len() as int;
    let t = t1.script.len() as int;
    let e = e1.script.len() as int;
    let head = if_head(st, c).0;
    let turn = if_turn(st, c, t1);
    let end = if_tail(st, c, t1, a, e1, b).0;
    lemma_if_grown(st, c, t1, a, e1, b);
    lemma_if_laid(st, c, t1, a, e1, b);
    lemma_head(st, c);
    lemma_extends(e1.script, end.script, script);
    lemma_extends(turn.script, e1.script, script);
    lemma_extends(t1.script, turn.script, script);
    lemma_extends(head.script, t1.script, script);
    lemma_nested_in(script, t1.script, n + 6, t, (n + 1) as u64);
    lemma_nested_in(script, e1.script, t + 2, e, (n + 2) as u64);
    lemma_opened(script, t1.script, t);
    lemma_opened(script, e1.script, e);
    assert(script[n] == head.script[n]);
    assert(script[n + 1] == head.script[n + 1]);
    assert(script[n + 2] == head.script[n + 2]);
    assert(script[n + 3] == head.script[n + 3]);
    assert(script[n + 4] == head.script[n + 4]);
    assert(script[n + 5] == head.script[n + 5]);
    assert(script[t] == turn.script[t]);
    assert(script[t + 1] == turn.script[t + 1]);
    assert(script[e] == end.script[e]);
    assert(script[e + 1] == end.script[e + 1]);
    assert(script[e + 2] == end.script[e + 2]);
    assert(script[e + 3] == end.script[e + 3]);
    assert(script[e + 4] == end.script[e + 4]);
}

/// The machine behind the head of a branch.
pub open spec fn branched(script: Seq<Cmd>, n: int, c: Val, m: Machine) -> Machine {
    m.set(n, flag(m.value(c) != 0)).left(opened(script, n + 4))
}

/// A branch goes to the part that its condition picks.
pub(crate) proof fn lemma_if_enter(
    script: Seq<Cmd>,
    n: int,
    t: int,
    e: int,
    c: Val,
    a: Val,
    b: Val,
    a_end: u64,
    b_end: u64,
    m: Machine,
)
    requires
        if_around(script, n, t, e, c, a, b, a_end, b_end),
    ensures
        keeps(m, branched(script, n, c, m), n),
        run(script, n, m) == run(
            script,
            if m.value(c) != 0 {
                n + 6
            } else {
                t + 2
            },
            branched(script, n, c, m),
        ),
{
    let m1 = m.set(n, flag(m.value(c) != 0));
    let m2 = branched(script, n, c, m);
    assert(m.value(constant(0)) == 0);
    assert(run(script, n, m) == run(script, n + 1, m1));
    assert(run(script, n + 1, m1) == run(script, n + 2, m1));
    assert(run(script, n + 2, m1) == run(script, n + 3, m1));
    assert(run(script, n + 3, m1) == run(script, n + 4, m1));
    if m.value(c) != 0 {
        lemma_seek_at(script, (n + 1) as u64, n + 5, n + 5);
        assert(run(script, n + 4, m1) == run(script, n + 5, m2));
        assert(run(script, n + 5, m2) == run(script, n + 6, m2));
    } else {
        lemma_seek_at(script, (n + 2) as u64, n + 5, t + 1);
        assert(run(script, n + 4, m1) == run(script, t + 1, m2));
        assert(run(script, t + 1, m2) == run(script, t + 2, m2));
    }
}

/// Behind either part a branch has the value of that part.
pub(crate) proof fn lemma_if_leave(
    script: Seq<Cmd>,
    n: int,
    t: int,
    e: int,
    c: Val,
    a: Val,
    b: Val,
    a_end: u64,
    b_end: u64,
    first: bool,
    m: Machine,
) -> (after: Machine)
    requires
        if_around(script, n, t, e, c, a, b, a_end, b_end),
    ensures
        keeps(m, after, e),
        after.regs[(e + 2) as u64] == m.value(if first { a } else { b }),
        run(script, if first { t } else { e }, m) == run(script, e + 5, after),
{
    let from = if first { a_end } else { b_end };
    let at = if first { t } else { e };
    let m1 = m.left(from);
    lemma_seek_at(script, (n + 3) as u64, at + 1, e + 1);
    assert(run(script, at, m) == run(script, e + 1, m1));
    assert(run(script, e + 1, m1) == run(script, e + 2, m1));
    let v = if first { a } else { b };
    assert(edge(script, e + 2, from, e + 3) == Some(v)) by {
        reveal_with_fuel(edge, 3);
    }
    let m2 = m1.set(e + 2, m1.value(v));
    assert(run(script, e + 2, m1) == run(script, e + 3, m2));
    assert(run(script, e + 3, m2) == run(script, e + 4, m2));
    assert(run(script, e + 4, m2) == run(script, e + 5, m2));
    m2
}

// ── loops run ────────────────────────────────────────────────────────────
pub(crate) proof fn lemma_seek_none(script: Seq<Cmd>, block: u64, i: int)
    requires
        0 <= i <= script.len(),
        forall|j: int| i <= j < script.len() ==> #[trigger] script[j] != (Cmd::At { block }),
    ensures
        seek(script, block, i) == script.len(),
    decreases script.len() - i,
{
    if i < script.len() {
        lemma_seek_none(script, block, i + 1);
    }
}

pub(crate) proof fn lemma_edge_at(script: Seq<Cmd>, phi: int, from: u64, i: int, p: int, v: Val)
    requires
        0 <= i <= p < script.len(),
        script[p] matches Cmd::Incoming { phi: q, val, from: f } && q == phi && f == from && val == v,
        forall|j: int|
            i <= j < p ==> !(#[trigger] script[j] matches Cmd::Incoming { phi: q, val, from: f }
                && q == phi && f == from),
    ensures
        edge(script, phi, from, i) == Some(v),
    decreases p - i,
{
    if i < p {
        lemma_edge_at(script, phi, from, i + 1, p, v);
    }
}

/// Edges do nothing.
pub(crate) proof fn lemma_edges_run(
    script: Seq<Cmd>,
    base: int,
    s: int,
    k: int,
    nexts: Seq<Val>,
    from: u64,
    i: int,
    m: Machine,
)
    requires
        edges_laid(script, base, s, k, nexts, from),
        0 <= base,
        base + 2 * k <= u64::MAX,
        0 <= s,
        0 <= i <= k,
        s + k <= script.len(),
    ensures
        run(script, s + i, m) == run(script, s + k, m),
    decreases k - i,
{
    if i < k {
        lemma_edges_kind(script, base, s, k, nexts, from, s + i);
        assert(run(script, s + i, m) == run(script, s + i + 1, m));
        lemma_edges_run(script, base, s, k, nexts, from, i + 1, m);
    }
}

/// The phis of a loop take their values.
pub(crate) proof fn lemma_phis_run(
    script: Seq<Cmd>,
    base: int,
    k: int,
    inits: Seq<Val>,
    from: u64,
    vals: Seq<Val>,
    words: Seq<u64>,
    i: int,
    m: Machine,
) -> (after: Machine)
    requires
        heads_laid(script, base, 0, k, inits, from),
        0 <= base,
        0 <= i <= k,
        base + 2 * k <= script.len(),
        base + 2 * k <= u64::MAX,
        forall|j: int|
            #![trigger phi_at(base, j)]
            0 <= j < k ==> edge(script, phi_at(base, j), m.came, phi_at(base, j) + 1) == Some(
                vals[j],
            ) && m.past(vals[j]) == words[j],
        forall|j: int|
            #![trigger phi_at(base, j)]
            0 <= j < i ==> m.regs[phi_at(base, j) as u64] == words[j],
    ensures
        run(script, phi_at(base, i), m) == run(script, phi_at(base, k), after),
        keeps(m, after, base),
        forall|j: int|
            #![trigger phi_at(base, j)]
            0 <= j < k ==> after.regs[phi_at(base, j) as u64] == words[j],
    decreases k - i,
{
    if i == k {
        m
    } else {
        let at = phi_at(base, i);
        assert(script[at] is Phi);
        assert(script[at + 1] is Incoming);
        let m1 = m.set(at, words[i]);
        assert(run(script, at, m) == run(script, at + 1, m1));
        assert(run(script, at + 1, m1) == run(script, at + 2, m1));
        assert(phi_at(base, i + 1) == at + 2);
        assert forall|j: int| #![trigger phi_at(base, j)] 0 <= j < i + 1 implies m1.regs[phi_at(
            base,
            j,
        ) as u64] == words[j] by {
            if j < i {
                assert(phi_at(base, j) as u64 != at as u64);
            }
        }
        assert forall|j: int| #![trigger phi_at(base, j)] 0 <= j < k implies edge(
            script,
            phi_at(base, j),
            m1.came,
            phi_at(base, j) + 1,
        ) == Some(vals[j]) && m1.past(vals[j]) == words[j] by {
            assert(m1.past(vals[j]) == m.past(vals[j]));
        }
        let after = lemma_phis_run(script, base, k, inits, from, vals, words, i + 1, m1);
        lemma_keeps(m, m1, after, base, base);
        after
    }
}

/// A loop is entered with the starting values of its accumulators.
pub(crate) proof fn lemma_loop_start(
    script: Seq<Cmd>,
    n: int,
    k: int,
    c: int,
    s: int,
    e: int,
    cv: Val,
    inits: Seq<Val>,
    nexts: Seq<Val>,
    from: u64,
    last: u64,
    words: Seq<u64>,
    m: Machine,
) -> (after: Machine)
    requires
        loop_around(script, n, k, c, s, e, cv, inits, nexts, from, last),
        forall|j: int| 0 <= j < k ==> m.value(#[trigger] inits[j]) == words[j],
    ensures
        run(script, n, m) == run(script, n + 5 + 2 * k, after),
        keeps(m, after, n),
        forall|j: int|
            #![trigger phi_at(n + 5, j)]
            0 <= j < k ==> after.regs[phi_at(n + 5, j) as u64] == words[j],
{
    reveal(loop_around);
    let m1 = m.left(from);
    assert(run(script, n, m) == run(script, n + 1, m));
    assert(run(script, n + 1, m) == run(script, n + 2, m));
    assert(run(script, n + 2, m) == run(script, n + 3, m));
    lemma_seek_at(script, n as u64, n + 4, n + 4);
    assert(run(script, n + 3, m) == run(script, n + 4, m1));
    assert(run(script, n + 4, m1) == run(script, n + 5, m1));
    assert forall|j: int| #![trigger phi_at(n + 5, j)] 0 <= j < k implies edge(
        script,
        phi_at(n + 5, j),
        m1.came,
        phi_at(n + 5, j) + 1,
    ) == Some(inits[j]) && m1.past(inits[j]) == words[j] by {
        let at = phi_at(n + 5, j);
        assert(script[at + 1] == (Cmd::Incoming { phi: at as u64, val: inits[j], from }));
        assert(m.value(inits[j]) == words[j]);
    }
    assert(phi_at(n + 5, 0) == n + 5);
    assert(phi_at(n + 5, k) == n + 5 + 2 * k);
    let after = lemma_phis_run(script, n + 5, k, inits, from, inits, words, 0, m1);
    lemma_keeps(m, m1, after, n, n + 5);
    after
}

/// The test of a loop goes on at its steps or at its result.
pub(crate) proof fn lemma_loop_tested(
    script: Seq<Cmd>,
    n: int,
    k: int,
    c: int,
    s: int,
    e: int,
    cv: Val,
    inits: Seq<Val>,
    nexts: Seq<Val>,
    from: u64,
    last: u64,
    m: Machine,
) -> (after: Machine)
    requires
        loop_around(script, n, k, c, s, e, cv, inits, nexts, from, last),
    ensures
        run(script, c, m) == run(
            script,
            if m.value(cv) != 0 {
                c + 3
            } else {
                s + k + 2
            },
            after,
        ),
        keeps(m, after, c),
{
    reveal(loop_around);
    let m1 = m.set(c, flag(m.value(cv) != 0));
    let m2 = m1.left(opened(script, c + 1));
    assert(m.value(constant(0)) == 0);
    assert(run(script, c, m) == run(script, c + 1, m1));
    if m.value(cv) != 0 {
        lemma_seek_at(script, (n + 1) as u64, c + 2, c + 2);
        assert(run(script, c + 1, m1) == run(script, c + 2, m2));
        assert(run(script, c + 2, m2) == run(script, c + 3, m2));
    } else {
        assert forall|j: int| c + 2 <= j < s + k + 1 implies #[trigger] script[j] != (Cmd::At {
            block: (n + 2) as u64,
        }) by {
            if s <= j < s + k {
                lemma_edges_kind(script, n + 5, s, k, nexts, last, j);
            }
        }
        lemma_seek_at(script, (n + 2) as u64, c + 2, s + k + 1);
        assert(run(script, c + 1, m1) == run(script, s + k + 1, m2));
        assert(run(script, s + k + 1, m2) == run(script, s + k + 2, m2));
    }
    m2
}

/// Behind its steps a loop goes back to its head.
pub(crate) proof fn lemma_loop_back(
    script: Seq<Cmd>,
    n: int,
    k: int,
    c: int,
    s: int,
    e: int,
    cv: Val,
    inits: Seq<Val>,
    nexts: Seq<Val>,
    from: u64,
    last: u64,
    m: Machine,
)
    requires
        loop_around(script, n, k, c, s, e, cv, inits, nexts, from, last),
        followed(script, n, e),
    ensures
        run(script, s, m) == Outcome::Back(n + 4, m.left(last)),
{
    reveal(loop_around);
    lemma_edges_run(script, n + 5, s, k, nexts, last, 0, m);
    lemma_opened_own(script, s + k + 2, e);
    assert(opened(script, s + k + 2) == (n + 2) as u64);
    lemma_seek_none(script, n as u64, s + k + 1);
    lemma_seek_at(script, n as u64, 0, n + 4);
}

/// There its accumulators take their next values.
pub(crate) proof fn lemma_loop_again(
    script: Seq<Cmd>,
    n: int,
    k: int,
    c: int,
    s: int,
    e: int,
    cv: Val,
    inits: Seq<Val>,
    nexts: Seq<Val>,
    from: u64,
    last: u64,
    words: Seq<u64>,
    m: Machine,
) -> (after: Machine)
    requires
        loop_around(script, n, k, c, s, e, cv, inits, nexts, from, last),
        forall|j: int| 0 <= j < k ==> m.value(#[trigger] nexts[j]) == words[j],
    ensures
        run(script, n + 4, m.left(last)) == run(script, n + 5 + 2 * k, after),
        keeps(m, after, n),
        forall|j: int|
            #![trigger phi_at(n + 5, j)]
            0 <= j < k ==> after.regs[phi_at(n + 5, j) as u64] == words[j],
{
    reveal(loop_around);
    let m1 = m.left(last);
    assert(run(script, n + 4, m1) == run(script, n + 5, m1));
    assert forall|j: int| #![trigger phi_at(n + 5, j)] 0 <= j < k implies edge(
        script,
        phi_at(n + 5, j),
        m1.came,
        phi_at(n + 5, j) + 1,
    ) == Some(nexts[j]) && m1.past(nexts[j]) == words[j] by {
        let at = phi_at(n + 5, j);
        assert(m.value(nexts[j]) == words[j]);
        assert(script[s + j] == (Cmd::Incoming { phi: at as u64, val: nexts[j], from: last }));
        assert forall|i: int| at + 1 <= i < s + j implies !(#[trigger] script[i] matches Cmd::Incoming {
            phi: q,
            val,
            from: f,
        } && q == at && f == last) by {
            if i < n + 5 + 2 * k {
                lemma_heads_kind(script, n + 5, k, inits, from, i);
            } else if s <= i {
                lemma_edges_kind(script, n + 5, s, k, nexts, last, i);
            }
        }
        lemma_edge_at(script, at, last, at + 1, s + j, nexts[j]);
    }
    assert(phi_at(n + 5, 0) == n + 5);
    assert(phi_at(n + 5, k) == n + 5 + 2 * k);
    let after = lemma_phis_run(script, n + 5, k, inits, from, nexts, words, 0, m1);
    lemma_keeps(m, m1, after, n, n + 5);
    after
}

/// The variables of a loop have the words of its accumulators.
proof fn lemma_heads_models(
    st: St,
    vars: Seq<LoopVar>,
    storages: Seq<LoopVarStorage>,
    inits: Seq<Val>,
    from: u64,
    i: nat,
    phis: Seq<Option<u64>>,
    base: int,
    m: Machine,
    known: Vars,
    words: Seq<u64>,
)
    requires
        all_scalar(storages),
        storages.len() == vars.len(),
        i <= vars.len(),
        st.script.len() == phi_at(base, i as int),
        models(st, m, vars_with(vars, words, i, known)),
        forall|j: int|
            #![trigger phi_at(base, j)]
            0 <= j < vars.len() ==> m.regs[phi_at(base, j) as u64] == words[j],
    ensures
        models(
            st.loop_head(vars, storages, inits, from, i, phis).0,
            m,
            vars_with(vars, words, vars.len(), known),
        ),
    decreases vars.len() - i,
{
    if i < vars.len() {
        assert(storages[i as int] is Scalar);
        let var = vars[i as int];
        let init = inits[i as int];
        let phi = st.here();
        let (mid, v) = st.phi_as(
            init.ty,
            Title::Var { before: "loop.", name: var.name, after: "" },
        );
        let joined = mid.incoming(phi, init, from);
        assert(phi_at(base, i as int) as u64 == phi);
        assert(m.value(v) == words[i as int]);
        let now = vars_with(vars, words, i, known);
        assert(models(joined, m, now)) by {
            assert forall|x: Seq<char>| #[trigger]
                joined.cx.env.get(x) matches Some(e) ==> m.value(e.value) == now[x] by {
                assert(joined.cx.env.get(x) == st.cx.env.get(x));
            }
        }
        lemma_models_bound(joined, var.name, v, var.ty, var.layout, m, now);
        assert(phi_at(base, i as int + 1) == phi_at(base, i as int) + 2);
        lemma_heads_models(
            joined.bind(var.name, v, var.ty, var.layout),
            vars,
            storages,
            inits,
            from,
            i + 1,
            phis.push(Some(phi)),
            base,
            m,
            known,
            words,
        );
    }
}

// ── programs run ─────────────────────────────────────────────────────────
/// A part of a program can be followed: it is lowered here, and the machine holds
/// the words of its variables.
pub open spec fn at_hand(st: St, vars: Vars, m: Machine) -> bool {
    settled(st) && env_ready(st) && models(st, m, vars)
}

/// The code of a part lies in the script, apart from what follows.
pub open spec fn holds_part(script: Seq<Cmd>, st: St, end: St) -> bool {
    countable(end) && extends(script, end.script) && followed(
        script,
        st.script.len() as int,
        end.script.len() as int,
    )
}

#[verifier::rlimit(40)]
pub(crate) proof fn lemma_comp_runs(
    st: St,
    fuel: nat,
    comp: Comp,
    vars: Vars,
    turns: nat,
    script: Seq<Cmd>,
    m: Machine,
) -> (r: (Machine, nat))
    requires
        plain_comp(comp, st.cx.gc),
        at_hand(st, vars, m),
        of_comp(st, fuel, comp) is Ok,
        holds_part(script, st, of_comp(st, fuel, comp)->Ok_0.0),
    ensures
        done_by(
            script,
            st.script.len() as int,
            m,
            of_comp(st, fuel, comp)->Ok_0.0.script.len() as int,
            of_comp(st, fuel, comp)->Ok_0.1,
            comp_meaning(comp, vars, turns),
            st.script.len() as int,
            r.0,
            r.1,
        ),
    decreases comp, turns + 2,
{
    let n = st.script.len() as int;
    match comp {
        Comp::Atom(a) => {
            lemma_of_atom(st, fuel, comp);
            lemma_atom(st, a);
            lemma_atom_word(st, a, m, vars);
            lemma_run_leads(script, n, m, n, m);
            (m, 0)
        },
        Comp::Bin(op, a, b) => {
            lemma_of_bin(st, fuel, comp);
            lemma_bin(st, op, a, b);
            lemma_bin_runs(st, op, a, b, vars, script, m)
        },
        Comp::If(cond, yes, no) => {
            let (c, t1, a, e1, b) = lemma_of_if(st, fuel, comp);
            let head = if_head(st, c).0;
            let turn = if_turn(st, c, t1);
            let (end, v) = if_tail(st, c, t1, a, e1, b);
            let t = t1.script.len() as int;
            let e = e1.script.len() as int;
            lemma_comp_grown(st, fuel, comp);
            lemma_ir_len(head, fuel, target(yes));
            lemma_ir_len(turn, fuel, target(no));
            lemma_head(st, c);
            lemma_head_settled(st, c);
            lemma_env_kept(st, head);
            lemma_ir_grown(head, fuel, target(yes));
            lemma_turn(st, c, t1);
            lemma_env_kept(st, turn);
            lemma_ir_grown(turn, fuel, target(no));
            lemma_if_around(st, c, t1, a, e1, b, script);
            lemma_if_laid(st, c, t1, a, e1, b);
            lemma_atom_word(st, cond, m, vars);
            let (a_end, b_end) = (t1.cx.block, e1.cx.block);
            lemma_if_apart(script, n, t, e, c, a, b, a_end, b_end);
            lemma_if_enter(script, n, t, e, c, a, b, a_end, b_end, m);
            let m2 = branched(script, n, c, m);
            let first = m.value(c) != 0;
            let (k, at, part, meant) = if first {
                (n + 6, t, a, ir_meaning(target(yes), vars, turns))
            } else {
                (t + 2, e, b, ir_meaning(target(no), vars, turns))
            };
            lemma_run_leads(script, n, m, k, m2);
            let (mid, i) = if first {
                lemma_models_kept(st, head, m, m2, vars);
                lemma_ir_runs(head, fuel, target(yes), vars, turns, script, m2)
            } else {
                lemma_models_kept(st, turn, m, m2, vars);
                lemma_ir_runs(turn, fuel, target(no), vars, turns, script, m2)
            };
            lemma_follows(script, n, m, k, m2, 0, at, part, meant, n, k, mid, i);
            if let Meant::Word(w) = meant {
                let after = lemma_if_leave(script, n, t, e, c, a, b, a_end, b_end, first, mid);
                lemma_keeps(m, mid, after, n, e);
                lemma_run_leads(script, at, mid, e + 5, after);
                lemma_leads(script, n, m, at, mid, i, e + 5, after, 0);
                assert(after.value(v) == w);
                (after, i)
            } else {
                (mid, i)
            }
        },
        Comp::Loop { vars: loop_vars, cond, steps, result } => {
            let p = lemma_of_loop(st, fuel, comp);
            lemma_loop_ready(st, fuel, comp, p);
            lemma_loop_around(st, fuel, comp, p, script);
            let (hd, h) = p.head(st, comp);
            let k = loop_vars@.len() as int;
            let words = init_words(loop_vars@, vars);
            assert forall|j: int| 0 <= j < k implies m.value(#[trigger] p.inits[j]) == words[j] by {
                let init = loop_vars@[j].init;
                assert(plain_var(loop_vars[j]));
                lemma_atom_word(st, init, m, vars);
            }
            let inner = lemma_loop_start(
                script,
                n,
                k,
                p.c1.script.len() as int,
                p.s1.script.len() as int,
                p.r1.script.len() as int,
                p.cv,
                p.inits,
                p.nexts,
                st.cx.block,
                p.s1.cx.block,
                words,
                m,
            );
            lemma_models_kept(st, st, m, inner, vars);
            assert(looping(st, fuel, comp, p, script)) by {
                reveal(looping);
            }
            let (after, j) = lemma_loop_runs(
                st,
                fuel,
                comp,
                p,
                vars,
                words,
                turns,
                turns,
                script,
                inner,
            );
            lemma_run_leads(script, n, m, n + 5 + 2 * k, inner);
            lemma_follows(
                script,
                n,
                m,
                n + 5 + 2 * k,
                inner,
                0,
                p.r1.script.len() as int,
                p.v,
                comp_meaning(comp, vars, turns),
                n,
                n,
                after,
                j,
            );
            (after, j)
        },
        _ => (m, 0),
    }
}

proof fn lemma_bin_runs(
    st: St,
    op: BinOp,
    a: Atom,
    b: Atom,
    vars: Vars,
    script: Seq<Cmd>,
    m: Machine,
) -> (r: (Machine, nat))
    requires
        !(a is Str),
        !(b is Str),
        at_hand(st, vars, m),
        st.bin(op, a, b) is Ok,
        holds_part(script, st, st.bin(op, a, b)->Ok_0.0),
    ensures
        done_by(
            script,
            st.script.len() as int,
            m,
            st.bin(op, a, b)->Ok_0.0.script.len() as int,
            st.bin(op, a, b)->Ok_0.1,
            op_meaning(op, atom_word(a, vars), atom_word(b, vars)),
            st.script.len() as int,
            r.0,
            r.1,
        ),
{
    let n = st.script.len() as int;
    lemma_bin(st, op, a, b);
    lemma_atom_word(st, a, m, vars);
    lemma_atom_word(st, b, m, vars);
    lemma_atom_ready(st, a);
    lemma_atom_ready(st, b);
    let x = st.atom(a)->Ok_0.1;
    let y = st.atom(b)->Ok_0.1;
    let (end, v) = st.int_bin(op, x, y);
    let e = end.script.len() as int;
    lemma_int_bin_len(st, op, x, y);
    let meant = op_meaning(op, m.value(x), m.value(y));
    if !(meant is Open) {
        integer_code_computes_the_operation(st, op, x, y, script, m);
    }
    match meant {
        Meant::Word(w) => {
            let after = choose|after: Machine| #[trigger]
                keeps(m, after, n) && after.value(v) == w && run(script, n, m) == run(
                    script,
                    e,
                    after,
                );
            assert(yields(script, n, m, e, v, w));
            lemma_run_leads(script, n, m, e, after);
            (after, 0)
        },
        _ => (m, 0),
    }
}

pub(crate) proof fn lemma_if_apart(
    script: Seq<Cmd>,
    n: int,
    t: int,
    e: int,
    c: Val,
    a: Val,
    b: Val,
    a_end: u64,
    b_end: u64,
)
    requires
        if_around(script, n, t, e, c, a, b, a_end, b_end),
        followed(script, n, e + 5),
    ensures
        followed(script, n + 6, t),
        followed(script, t + 2, e),
{
    reveal_with_fuel(opened, 5);
    assert(opened(script, e + 5) == (n + 3) as u64);
}

/// The parts of a loop are in order.
#[verifier::rlimit(40)]
proof fn lemma_loop_ready(st: St, fuel: nat, comp: Comp, p: LoopParts)
    requires
        plain_comp(comp, st.cx.gc),
        p.of(st, fuel, comp),
        settled(st),
        env_ready(st),
        countable(p.r1),
    ensures
        ({
            let (hd, h) = p.head(st, comp);
            let body = p.body(st, comp);
            let out = p.out(st, comp);
            &&& !hd.cx.gc && !body.cx.gc && !out.cx.gc
            &&& settled(hd) && env_ready(hd) && grown(hd, p.c1)
            &&& settled(body) && env_ready(body) && grown(body, p.s1)
            &&& settled(out) && env_ready(out) && grown(out, p.r1)
            &&& h.env == hd.cx.env
            &&& body.cx.env == hd.cx.env
            &&& out.cx.env == hd.cx.env
            &&& h.storages == p.storages
            &&& hd.script.len() == st.script.len() + 5 + 2 * comp->Loop_vars@.len()
            &&& body.script.len() == p.c1.script.len() + 3
            &&& out.script.len() == p.s1.script.len() + comp->Loop_vars@.len() + 2
            &&& p.nexts.len() == comp->Loop_vars@.len()
            &&& forall|j: int| 0 <= j < p.nexts.len() ==> ready(p.s1, #[trigger] p.nexts[j])
        }),
{
    let vars = comp->Loop_vars@;
    let (hd, h) = p.head(st, comp);
    let body = p.body(st, comp);
    let out = p.out(st, comp);
    lemma_loop_len(st, fuel, comp, p);
    lemma_ir_len(hd, fuel, target(comp->cond));
    lemma_steps_len(body, fuel, comp->steps, h, 0, Seq::empty());
    lemma_ir_len(out, fuel, target(comp->result));
    lemma_loop_head_grown(st, fuel, comp, p);
    lemma_ir_grown(hd, fuel, target(comp->cond));
    lemma_loop_body_settled(st, fuel, comp, p);
    lemma_env_kept(hd, body);
    lemma_loop_blocks(st, vars, p.storages, p.inits);
    lemma_steps_grown(body, fuel, comp->steps, h, 0, Seq::empty());
    lemma_loop_out_settled(st, fuel, comp, p);
    lemma_env_kept(hd, out);
    lemma_ir_grown(out, fuel, target(comp->result));
    lemma_loop_close(p.s1, h, p.nexts, st, st.script.len() as int + 5);
}

pub(crate) proof fn lemma_loop_apart(
    script: Seq<Cmd>,
    n: int,
    k: int,
    c: int,
    s: int,
    e: int,
    cv: Val,
    inits: Seq<Val>,
    nexts: Seq<Val>,
    from: u64,
    last: u64,
)
    requires
        loop_around(script, n, k, c, s, e, cv, inits, nexts, from, last),
        followed(script, n, e),
    ensures
        followed(script, n + 5 + 2 * k, c),
        followed(script, c + 3, s),
        followed(script, s + k + 2, e),
{
    reveal(loop_around);
    lemma_opened_own(script, s + k + 2, e);
    assert(opened(script, s + k + 2) == (n + 2) as u64);
    assert forall|i: int| c <= i < script.len() implies (#[trigger] script[i] matches Cmd::At { block }
        ==> block < n + 5 + 2 * k || c <= block) by {
        if s <= i < s + k {
            lemma_edges_kind(script, n + 5, s, k, nexts, last, i);
        }
    }
    assert forall|i: int| s <= i < script.len() implies (#[trigger] script[i] matches Cmd::At { block }
        ==> block < c + 3 || s <= block) by {
        if s <= i < s + k {
            lemma_edges_kind(script, n + 5, s, k, nexts, last, i);
        }
    }
}

/// Behind its steps a loop is at its head again, with the next words.
proof fn lemma_loop_turned(
    script: Seq<Cmd>,
    n: int,
    k: int,
    c: int,
    s: int,
    e: int,
    cv: Val,
    inits: Seq<Val>,
    nexts: Seq<Val>,
    from: u64,
    last: u64,
    words: Seq<u64>,
    m: Machine,
    done: Machine,
    i: nat,
) -> (after: Machine)
    requires
        loop_around(script, n, k, c, s, e, cv, inits, nexts, from, last),
        followed(script, n, e),
        keeps(m, done, n),
        leads_in(script, n + 5 + 2 * k, m, s, done, i),
        forall|j: int| 0 <= j < k ==> done.value(#[trigger] nexts[j]) == words[j],
    ensures
        keeps(m, after, n),
        leads_in(script, n + 5 + 2 * k, m, n + 5 + 2 * k, after, i + 1),
        forall|j: int|
            #![trigger phi_at(n + 5, j)]
            0 <= j < k ==> after.regs[phi_at(n + 5, j) as u64] == words[j],
{
    let at = n + 5 + 2 * k;
    let gone = done.left(last);
    lemma_loop_back(script, n, k, c, s, e, cv, inits, nexts, from, last, done);
    lemma_back_leads(script, s, done, n + 4, gone);
    lemma_leads(script, at, m, s, done, i, n + 4, gone, 1);
    let after = lemma_loop_again(
        script,
        n,
        k,
        c,
        s,
        e,
        cv,
        inits,
        nexts,
        from,
        last,
        words,
        done,
    );
    lemma_run_leads(script, n + 4, gone, at, after);
    lemma_leads(script, at, m, n + 4, gone, i + 1, at, after, 0);
    lemma_keeps(m, done, after, n, n);
    after
}

/// The variables inside a loop have the words of its accumulators.
pub(crate) proof fn lemma_loop_inside(
    st: St,
    fuel: nat,
    comp: Comp,
    p: LoopParts,
    vars: Vars,
    words: Seq<u64>,
    m: Machine,
)
    requires
        p.of(st, fuel, comp),
        at_hand(st, vars, m),
        countable(p.head(st, comp).0),
        forall|j: int|
            #![trigger phi_at(st.script.len() as int + 5, j)]
            0 <= j < comp->Loop_vars@.len() ==> m.regs[phi_at(
                st.script.len() as int + 5,
                j,
            ) as u64] == words[j],
    ensures
        models(
            p.head(st, comp).0,
            m,
            vars_with(comp->Loop_vars@, words, comp->Loop_vars@.len(), vars),
        ),
{
    let n = st.script.len() as int;
    let loop_vars = comp->Loop_vars@;
    let d = loop_opened(st);
    lemma_loop_head_gc(st, loop_vars, p.storages, p.inits);
    lemma_loop_blocks(st, loop_vars, p.storages, p.inits);
    lemma_models_kept(st, d, m, m, vars);
    assert(phi_at(n + 5, 0) == d.script.len());
    lemma_heads_models(
        d,
        loop_vars,
        p.storages,
        p.inits,
        st.cx.block,
        0,
        Seq::empty(),
        n + 5,
        m,
        vars,
        words,
    );
}

/// A loop that can be followed.
#[verifier::opaque]
pub open spec fn looping(st: St, fuel: nat, comp: Comp, p: LoopParts, script: Seq<Cmd>) -> bool {
    &&& plain_comp(comp, st.cx.gc)
    &&& p.of(st, fuel, comp)
    &&& settled(st)
    &&& env_ready(st)
    &&& holds_part(script, st, p.r1)
}

/// The phis of the accumulators have these words.
pub open spec fn accumulated(st: St, comp: Comp, words: Seq<u64>, m: Machine) -> bool {
    forall|j: int|
        #![trigger phi_at(st.script.len() as int + 5, j)]
        0 <= j < comp->Loop_vars@.len() ==> m.regs[phi_at(
            st.script.len() as int + 5,
            j,
        ) as u64] == words[j]
}

/// The variables inside a loop.
pub open spec fn inside(comp: Comp, words: Seq<u64>, vars: Vars) -> Vars {
    vars_with(comp->Loop_vars@, words, comp->Loop_vars@.len(), vars)
}

/// The loop lies in the script.
proof fn lemma_looping(st: St, fuel: nat, comp: Comp, p: LoopParts, script: Seq<Cmd>)
    requires
        looping(st, fuel, comp, p, script),
    ensures
        comp is Loop,
        loop_around(
            script,
            st.script.len() as int,
            comp->Loop_vars@.len() as int,
            p.c1.script.len() as int,
            p.s1.script.len() as int,
            p.r1.script.len() as int,
            p.cv,
            p.inits,
            p.nexts,
            st.cx.block,
            p.s1.cx.block,
        ),
        followed(script, st.script.len() as int, p.r1.script.len() as int),
        st.script.len() + 5 + 2 * comp->Loop_vars@.len() <= p.c1.script.len(),
        p.c1.script.len() + 3 <= p.s1.script.len(),
        p.s1.script.len() + comp->Loop_vars@.len() + 2 <= p.r1.script.len(),
{
    reveal(looping);
    lemma_loop_ready(st, fuel, comp, p);
    lemma_loop_around(st, fuel, comp, p, script);
}

proof fn lemma_loop_cond_runs(
    st: St,
    fuel: nat,
    comp: Comp,
    p: LoopParts,
    vars: Vars,
    words: Seq<u64>,
    turns: nat,
    script: Seq<Cmd>,
    m: Machine,
) -> (r: (Machine, nat))
    requires
        looping(st, fuel, comp, p, script),
        models(st, m, vars),
        accumulated(st, comp, words, m),
    ensures
        done_by(
            script,
            st.script.len() as int + 5 + 2 * comp->Loop_vars@.len(),
            m,
            p.c1.script.len() as int,
            p.cv,
            ir_meaning(*comp->cond, inside(comp, words, vars), turns),
            st.script.len() as int + 5 + 2 * comp->Loop_vars@.len(),
            r.0,
            r.1,
        ),
    decreases comp, 0nat,
{
    reveal(looping);
    let n = st.script.len() as int;
    let k = comp->Loop_vars@.len() as int;
    let c = p.c1.script.len() as int;
    let s = p.s1.script.len() as int;
    let e = p.r1.script.len() as int;
    let (from, last) = (st.cx.block, p.s1.cx.block);
    let hd = p.head(st, comp).0;
    lemma_loop_ready(st, fuel, comp, p);
    lemma_loop_around(st, fuel, comp, p, script);
    lemma_loop_apart(script, n, k, c, s, e, p.cv, p.inits, p.nexts, from, last);
    lemma_loop_inside(st, fuel, comp, p, vars, words, m);
    lemma_ir_runs(hd, fuel, target(comp->cond), inside(comp, words, vars), turns, script, m)
}

proof fn lemma_loop_result_runs(
    st: St,
    fuel: nat,
    comp: Comp,
    p: LoopParts,
    vars: Vars,
    words: Seq<u64>,
    turns: nat,
    script: Seq<Cmd>,
    m: Machine,
    now: Machine,
) -> (r: (Machine, nat))
    requires
        looping(st, fuel, comp, p, script),
        models(st, m, vars),
        accumulated(st, comp, words, m),
        keeps(m, now, st.script.len() as int + 5 + 2 * comp->Loop_vars@.len()),
    ensures
        done_by(
            script,
            p.s1.script.len() as int + comp->Loop_vars@.len() + 2,
            now,
            p.r1.script.len() as int,
            p.v,
            ir_meaning(*comp->result, inside(comp, words, vars), turns),
            p.s1.script.len() as int + comp->Loop_vars@.len() + 2,
            r.0,
            r.1,
        ),
    decreases comp, 0nat,
{
    reveal(looping);
    let n = st.script.len() as int;
    let k = comp->Loop_vars@.len() as int;
    let c = p.c1.script.len() as int;
    let s = p.s1.script.len() as int;
    let e = p.r1.script.len() as int;
    let (from, last) = (st.cx.block, p.s1.cx.block);
    let hd = p.head(st, comp).0;
    let out = p.out(st, comp);
    lemma_loop_ready(st, fuel, comp, p);
    lemma_loop_around(st, fuel, comp, p, script);
    lemma_loop_apart(script, n, k, c, s, e, p.cv, p.inits, p.nexts, from, last);
    lemma_loop_inside(st, fuel, comp, p, vars, words, m);
    lemma_models_kept(hd, out, m, now, inside(comp, words, vars));
    lemma_ir_runs(out, fuel, target(comp->result), inside(comp, words, vars), turns, script, now)
}

#[verifier::rlimit(40)]
proof fn lemma_loop_steps_run(
    st: St,
    fuel: nat,
    comp: Comp,
    p: LoopParts,
    vars: Vars,
    words: Seq<u64>,
    turns: nat,
    script: Seq<Cmd>,
    m: Machine,
    now: Machine,
) -> (r: (Machine, nat))
    requires
        looping(st, fuel, comp, p, script),
        models(st, m, vars),
        accumulated(st, comp, words, m),
        keeps(m, now, st.script.len() as int + 5 + 2 * comp->Loop_vars@.len()),
    ensures
        match step_words(comp->steps, 0, inside(comp, words, vars), turns) {
            Ok(next) => {
                &&& keeps(now, r.0, p.c1.script.len() as int + 3)
                &&& leads_in(
                    script,
                    p.c1.script.len() as int + 3,
                    now,
                    p.s1.script.len() as int,
                    r.0,
                    r.1,
                )
                &&& forall|j: int|
                    0 <= j < comp->Loop_vars@.len() ==> r.0.value(#[trigger] p.nexts[j]) == next[j]
            },
            Err(Meant::Trap) => traps_in(script, p.c1.script.len() as int + 3, now, r.1),
            Err(Meant::Open) => true,
            Err(Meant::Word(_)) => false,
        },
    decreases comp, 0nat,
{
    reveal(looping);
    let n = st.script.len() as int;
    let k = comp->Loop_vars@.len() as int;
    let c = p.c1.script.len() as int;
    let s = p.s1.script.len() as int;
    let e = p.r1.script.len() as int;
    let (from, last) = (st.cx.block, p.s1.cx.block);
    let (hd, h) = p.head(st, comp);
    let body = p.body(st, comp);
    lemma_loop_ready(st, fuel, comp, p);
    lemma_loop_around(st, fuel, comp, p, script);
    lemma_loop_apart(script, n, k, c, s, e, p.cv, p.inits, p.nexts, from, last);
    lemma_loop_inside(st, fuel, comp, p, vars, words, m);
    let known = inside(comp, words, vars);
    lemma_models_kept(hd, body, m, now, known);
    assert(body.in_env(h.env) == body);
    let r = lemma_steps_run(
        body,
        fuel,
        comp->steps,
        h,
        0,
        Seq::empty(),
        Seq::empty(),
        known,
        turns,
        script,
        now,
    );
    assert(of_steps(body, fuel, comp->steps, h, 0, Seq::empty())->Ok_0 == (p.s1, p.nexts));
    if let Ok(next) = step_words(comp->steps, 0, known, turns) {
        assert(Seq::<u64>::empty() + next =~= next);
        assert forall|j: int| 0 <= j < k implies r.0.value(#[trigger] p.nexts[j]) == next[j] by {
            assert(j < comp->steps.len());
            assert(of_steps(body, fuel, comp->steps, h, 0, Seq::empty())->Ok_0.1 == p.nexts);
            assert(r.0.value(p.nexts[j]) == (Seq::<u64>::empty() + next)[j]);
        }
    }
    r
}

/// A loop runs from its head on.
#[verifier::rlimit(40)]
proof fn lemma_loop_runs(
    st: St,
    fuel: nat,
    comp: Comp,
    p: LoopParts,
    vars: Vars,
    words: Seq<u64>,
    turns: nat,
    left: nat,
    script: Seq<Cmd>,
    m: Machine,
) -> (r: (Machine, nat))
    requires
        looping(st, fuel, comp, p, script),
        env_ready(st),
        models(st, m, vars),
        accumulated(st, comp, words, m),
    ensures
        done_by(
            script,
            st.script.len() as int + 5 + 2 * comp->Loop_vars@.len(),
            m,
            p.r1.script.len() as int,
            p.v,
            loop_meaning(comp, vars, words, turns, left),
            st.script.len() as int,
            r.0,
            r.1,
        ),
    decreases comp, left + 1,
{
    let n = st.script.len() as int;
    let k = comp->Loop_vars@.len() as int;
    let c = p.c1.script.len() as int;
    let s = p.s1.script.len() as int;
    let e = p.r1.script.len() as int;
    let (from, last) = (st.cx.block, p.s1.cx.block);
    let at = n + 5 + 2 * k;
    lemma_looping(st, fuel, comp, p, script);
    let known = inside(comp, words, vars);
    let meant = loop_meaning(comp, vars, words, turns, left);
    let (m1, i1) = lemma_loop_cond_runs(st, fuel, comp, p, vars, words, turns, script, m);
    if let Meant::Word(w) = ir_meaning(target(comp->cond), known, turns) {
        let m2 = lemma_loop_tested(script, n, k, c, s, e, p.cv, p.inits, p.nexts, from, last, m1);
        lemma_keeps(m, m1, m2, at, c);
        lemma_keeps(m, m, m2, n, at);
        if w == 0 {
            let x = s + k + 2;
            lemma_run_leads(script, c, m1, x, m2);
            lemma_leads(script, at, m, c, m1, i1, x, m2, 0);
            let (m3, i3) = lemma_loop_result_runs(
                st,
                fuel,
                comp,
                p,
                vars,
                words,
                turns,
                script,
                m,
                m2,
            );
            lemma_follows(script, at, m, x, m2, i1, e, p.v, meant, n, x, m3, i3);
            (m3, i1 + i3)
        } else if left == 0 {
            (m, 0)
        } else {
            lemma_run_leads(script, c, m1, c + 3, m2);
            lemma_leads(script, at, m, c, m1, i1, c + 3, m2, 0);
            let (m3, i3) = lemma_loop_steps_run(
                st,
                fuel,
                comp,
                p,
                vars,
                words,
                turns,
                script,
                m,
                m2,
            );
            match step_words(comp->steps, 0, known, turns) {
                Ok(next) => {
                    lemma_leads(script, at, m, c + 3, m2, i1, s, m3, i3);
                    lemma_keeps(m, m2, m3, n, c + 3);
                    let m4 = lemma_loop_turned(
                        script,
                        n,
                        k,
                        c,
                        s,
                        e,
                        p.cv,
                        p.inits,
                        p.nexts,
                        from,
                        last,
                        next,
                        m,
                        m3,
                        i1 + i3,
                    );
                    lemma_models_kept(st, st, m, m4, vars);
                    let (m5, i5) = lemma_loop_runs(
                        st,
                        fuel,
                        comp,
                        p,
                        vars,
                        next,
                        turns,
                        (left - 1) as nat,
                        script,
                        m4,
                    );
                    lemma_follows(script, at, m, at, m4, i1 + i3 + 1, e, p.v, meant, n, n, m5, i5);
                    (m5, i1 + i3 + 1 + i5)
                },
                Err(Meant::Trap) => {
                    lemma_leads_to_trap(script, at, m, c + 3, m2, i1, i3);
                    (m, i1 + i3)
                },
                Err(_) => (m, 0),
            }
        }
    } else {
        (m1, i1)
    }
}

/// The steps of a loop run from position `i` on.
#[verifier::rlimit(40)]
proof fn lemma_steps_run(
    st: St,
    fuel: nat,
    steps: Vec<Ir>,
    h: LoopHead,
    i: nat,
    done: Seq<Val>,
    words: Seq<u64>,
    vars: Vars,
    turns: nat,
    script: Seq<Cmd>,
    m: Machine,
) -> (r: (Machine, nat))
    requires
        !st.cx.gc,
        plain_steps(steps, steps.len() as nat, false),
        all_scalar(h.storages),
        h.storages.len() == steps.len(),
        at_hand(st.in_env(h.env), vars, m),
        i <= steps.len(),
        done.len() == i,
        words.len() == i,
        forall|j: int|
            0 <= j < i ==> ready(st, #[trigger] done[j]) && m.value(done[j]) == words[j],
        of_steps(st, fuel, steps, h, i, done) is Ok,
        holds_part(script, st, of_steps(st, fuel, steps, h, i, done)->Ok_0.0),
    ensures
        ({
            let (end, nexts) = of_steps(st, fuel, steps, h, i, done)->Ok_0;
            let n = st.script.len() as int;
            match step_words(steps, i, vars, turns) {
                Ok(more) => {
                    &&& keeps(m, r.0, n)
                    &&& leads_in(script, n, m, end.script.len() as int, r.0, r.1)
                    &&& words.len() + more.len() == steps.len()
                    &&& forall|j: int|
                        0 <= j < steps.len() ==> r.0.value(#[trigger] nexts[j]) == (words + more)[j]
                },
                Err(Meant::Trap) => traps_in(script, n, m, r.1),
                Err(Meant::Open) => true,
                Err(Meant::Word(_)) => false,
            }
        }),
    decreases steps, steps.len() - i,
{
    let n = st.script.len() as int;
    lemma_of_steps(st, fuel, steps, h, i, done);
    if i < steps.len() {
        let start = st.in_env(h.env);
        lemma_plain_step(steps, steps.len() as nat, i as int, false);
        let (next, v) = of_ir(start, fuel, steps[i as int])->Ok_0;
        let (end, nexts) = of_steps(st, fuel, steps, h, i, done)->Ok_0;
        let k = next.script.len() as int;
        let e = end.script.len() as int;
        lemma_ir_len(start, fuel, steps[i as int]);
        lemma_steps_len(next, fuel, steps, h, i + 1, done.push(v));
        lemma_ir_grown(start, fuel, steps[i as int]);
        lemma_env_kept(start, next.in_env(h.env));
        assert forall|j: int| 0 <= j < i + 1 implies ready(next, #[trigger] done.push(v)[j]) by {
            if j < i {
                assert(ready(st, done[j]));
            }
        }
        lemma_steps_grown(next, fuel, steps, h, i + 1, done.push(v));
        lemma_extends(next.script, end.script, script);
        lemma_own_blocks(script, end.script, k, e);
        lemma_apart(script, n, k, e);
        let (m1, i1) = lemma_ir_runs(start, fuel, steps[i as int], vars, turns, script, m);
        match ir_meaning(steps[i as int], vars, turns) {
            Meant::Word(w) => {
                lemma_models_kept(start, next.in_env(h.env), m, m1, vars);
                assert forall|j: int| 0 <= j < i + 1 implies ready(next, #[trigger] done.push(v)[j])
                    && m1.value(done.push(v)[j]) == words.push(w)[j] by {
                    if j < i {
                        assert(ready(st, done[j]) && m.value(done[j]) == words[j]);
                        lemma_value_kept(st, done[j], m, m1);
                    }
                }
                let (m2, i2) = lemma_steps_run(
                    next,
                    fuel,
                    steps,
                    h,
                    i + 1,
                    done.push(v),
                    words.push(w),
                    vars,
                    turns,
                    script,
                    m1,
                );
                match step_words(steps, i + 1, vars, turns) {
                    Ok(more) => {
                        lemma_keeps(m, m1, m2, n, k);
                        lemma_leads(script, n, m, k, m1, i1, e, m2, i2);
                        assert(words.push(w) + more =~= words + (seq![w] + more));
                    },
                    Err(Meant::Trap) => lemma_leads_to_trap(script, n, m, k, m1, i1, i2),
                    _ => {},
                }
                (m2, i1 + i2)
            },
            _ => (m1, i1),
        }
    } else {
        lemma_run_leads(script, n, m, n, m);
        assert(words + Seq::<u64>::empty() =~= words);
        (m, 0)
    }
}

#[verifier::rlimit(40)]
pub(crate) proof fn lemma_ir_runs(
    st: St,
    fuel: nat,
    ir: Ir,
    vars: Vars,
    turns: nat,
    script: Seq<Cmd>,
    m: Machine,
) -> (r: (Machine, nat))
    requires
        plain_ir(ir, st.cx.gc),
        at_hand(st, vars, m),
        of_ir(st, fuel, ir) is Ok,
        holds_part(script, st, of_ir(st, fuel, ir)->Ok_0.0),
    ensures
        done_by(
            script,
            st.script.len() as int,
            m,
            of_ir(st, fuel, ir)->Ok_0.0.script.len() as int,
            of_ir(st, fuel, ir)->Ok_0.1,
            ir_meaning(ir, vars, turns),
            st.script.len() as int,
            r.0,
            r.1,
        ),
    decreases ir, 0nat,
{
    let n = st.script.len() as int;
    let (end, v) = of_ir(st, fuel, ir)->Ok_0;
    let e = end.script.len() as int;
    match ir {
        Ir::Block { binds, comp, .. } => {
            lemma_of_block(st, fuel, ir);
            let next = of_binds(st, fuel, binds, 0)->Ok_0;
            let k = next.script.len() as int;
            lemma_binds_len(st, fuel, binds, 0);
            lemma_comp_len(next, fuel, target(comp));
            lemma_binds_grown(st, fuel, binds, 0);
            lemma_comp_grown(next, fuel, target(comp));
            lemma_extends(next.script, end.script, script);
            lemma_own_blocks(script, end.script, k, e);
            lemma_apart(script, n, k, e);
            let (mid, i) = lemma_binds_run(st, fuel, binds, 0, vars, turns, script, m);
            match vars_from(binds, 0, vars, turns) {
                Ok(later) => {
                    let (after, j) = lemma_comp_runs(
                        next,
                        fuel,
                        target(comp),
                        later,
                        turns,
                        script,
                        mid,
                    );
                    let meant = comp_meaning(target(comp), later, turns);
                    lemma_follows(script, n, m, k, mid, i, e, v, meant, n, k, after, j);
                    (after, i + j)
                },
                _ => (mid, i),
            }
        },
        Ir::Let { name, ty, layout, comp, rest, .. } => {
            lemma_of_let(st, fuel, ir);
            let (mid_st, x) = of_comp(st, fuel, target(comp))->Ok_0;
            let next = mid_st.bind(name, x, ty, layout);
            let k = next.script.len() as int;
            lemma_comp_len(st, fuel, target(comp));
            lemma_ir_len(next, fuel, target(rest));
            lemma_comp_grown(st, fuel, target(comp));
            lemma_env_kept(st, mid_st);
            lemma_bound(mid_st, name, x, ty, layout);
            lemma_ir_grown(next, fuel, target(rest));
            lemma_extends(next.script, end.script, script);
            lemma_own_blocks(script, end.script, k, e);
            lemma_apart(script, n, k, e);
            let (mid, i) = lemma_comp_runs(st, fuel, target(comp), vars, turns, script, m);
            match comp_meaning(target(comp), vars, turns) {
                Meant::Word(w) => {
                    lemma_models_kept(st, mid_st, m, mid, vars);
                    lemma_models_bound(mid_st, name, x, ty, layout, mid, vars);
                    let later = vars.insert(name@, w);
                    let (after, j) = lemma_ir_runs(
                        next,
                        fuel,
                        target(rest),
                        later,
                        turns,
                        script,
                        mid,
                    );
                    let meant = ir_meaning(target(rest), later, turns);
                    lemma_follows(script, n, m, k, mid, i, e, v, meant, n, k, after, j);
                    (after, i + j)
                },
                _ => (mid, i),
            }
        },
        Ir::Ret { comp, .. } => {
            lemma_of_ret(st, fuel, ir);
            lemma_comp_runs(st, fuel, target(comp), vars, turns, script, m)
        },
    }
}

#[verifier::rlimit(40)]
pub(crate) proof fn lemma_binds_run(
    st: St,
    fuel: nat,
    binds: Vec<IrBind>,
    i: nat,
    vars: Vars,
    turns: nat,
    script: Seq<Cmd>,
    m: Machine,
) -> (r: (Machine, nat))
    requires
        plain_binds(binds, binds.len() as nat, st.cx.gc),
        at_hand(st, vars, m),
        of_binds(st, fuel, binds, i) is Ok,
        holds_part(script, st, of_binds(st, fuel, binds, i)->Ok_0),
    ensures
        ({
            let end = of_binds(st, fuel, binds, i)->Ok_0;
            let n = st.script.len() as int;
            match vars_from(binds, i, vars, turns) {
                Ok(later) => {
                    &&& keeps(m, r.0, n)
                    &&& models(end, r.0, later)
                    &&& leads_in(script, n, m, end.script.len() as int, r.0, r.1)
                },
                Err(Meant::Trap) => traps_in(script, n, m, r.1),
                Err(Meant::Open) => true,
                Err(Meant::Word(_)) => false,
            }
        }),
    decreases binds, binds.len() - i,
{
    let n = st.script.len() as int;
    lemma_of_binds(st, fuel, binds, i);
    if i < binds.len() {
        let b = binds[i as int];
        lemma_plain_bind(binds, binds.len() as nat, i as int, st.cx.gc);
        let (mid_st, x) = of_comp(st, fuel, target(b.comp))->Ok_0;
        let next = mid_st.bind(b.name, x, b.ty, b.layout);
        let k = next.script.len() as int;
        let end = of_binds(st, fuel, binds, i)->Ok_0;
        let e = end.script.len() as int;
        lemma_comp_len(st, fuel, target(b.comp));
        lemma_binds_len(next, fuel, binds, i + 1);
        lemma_comp_grown(st, fuel, target(b.comp));
        lemma_env_kept(st, mid_st);
        lemma_bound(mid_st, b.name, x, b.ty, b.layout);
        lemma_binds_grown(next, fuel, binds, i + 1);
        lemma_extends(next.script, end.script, script);
        lemma_own_blocks(script, end.script, k, e);
        lemma_apart(script, n, k, e);
        let (mid, i1) = lemma_comp_runs(
            st,
            fuel,
            target(binds[i as int].comp),
            vars,
            turns,
            script,
            m,
        );
        match comp_meaning(target(b.comp), vars, turns) {
            Meant::Word(w) => {
                lemma_models_kept(st, mid_st, m, mid, vars);
                lemma_models_bound(mid_st, b.name, x, b.ty, b.layout, mid, vars);
                let later = vars.insert(b.name@, w);
                let (after, i2) = lemma_binds_run(
                    next,
                    fuel,
                    binds,
                    i + 1,
                    later,
                    turns,
                    script,
                    mid,
                );
                match vars_from(binds, i + 1, later, turns) {
                    Ok(_) => {
                        lemma_keeps(m, mid, after, n, k);
                        lemma_leads(script, n, m, k, mid, i1, e, after, i2);
                    },
                    Err(Meant::Trap) => lemma_leads_to_trap(script, n, m, k, mid, i1, i2),
                    _ => {},
                }
                (after, i1 + i2)
            },
            _ => (mid, i1),
        }
    } else {
        lemma_run_leads(script, n, m, n, m);
        (m, 0)
    }
}

// ── programs compute what they mean ──────────────────────────────────────
/// The code from `n` to `end` does what was meant: it goes on at `end` with the word
/// as the value of `v`, and what was there before it is unchanged; or it traps.
pub open spec fn does(script: Seq<Cmd>, n: int, m: Machine, end: int, v: Val, meant: Meant) -> bool {
    exists|after: Machine, j: nat| #[trigger] done_by(script, n, m, end, v, meant, n, after, j)
}

/// A program of integers computes what it means. Where it is lowered in a state that
/// knows its variables, and the machine holds their words, the code runs to its end
/// with the word that the program means as the value of the block, and nothing that
/// was there before is changed. Where the program means a trap, the code traps.
pub proof fn programs_compute_what_they_mean(
    st: St,
    fuel: nat,
    ir: Ir,
    vars: Vars,
    turns: nat,
    script: Seq<Cmd>,
    m: Machine,
)
    requires
        plain_ir(ir, st.cx.gc),
        at_hand(st, vars, m),
        st.block(fuel, ir) is Ok,
        holds_part(script, st, st.block(fuel, ir)->Ok_0.0),
    ensures
        does(
            script,
            st.script.len() as int,
            m,
            st.block(fuel, ir)->Ok_0.0.script.len() as int,
            st.block(fuel, ir)->Ok_0.1,
            ir_meaning(ir, vars, turns),
        ),
{
    lemma_of_ir(st, fuel, ir);
    let (after, j) = lemma_ir_runs(st, fuel, ir, vars, turns, script, m);
    let (end, v) = st.block(fuel, ir)->Ok_0;
    let n = st.script.len() as int;
    assert(done_by(
        script,
        n,
        m,
        end.script.len() as int,
        v,
        ir_meaning(ir, vars, turns),
        n,
        after,
        j,
    ));
}

// ── whole functions ──────────────────────────────────────────────────────
/// The code returns the word that was meant, or traps.
pub open spec fn answers(script: Seq<Cmd>, pc: int, m: Machine, meant: Meant) -> bool {
    match meant {
        Meant::Word(w) => exists|j: nat| #[trigger] returns_in(script, pc, m, w, j),
        Meant::Trap => exists|j: nat| #[trigger] traps_in(script, pc, m, j),
        Meant::Open => true,
    }
}

/// The code returns this word, once it went back `j` times, and stores nothing.
pub open spec fn returns_in(script: Seq<Cmd>, pc: int, m: Machine, w: u64, j: nat) -> bool {
    forall|t: nat| t >= j ==> #[trigger] runs(script, pc, m, t) == Outcome::Returned(w, m.store())
}

/// The body of a function that needs no collector.
proof fn lemma_body_answers(
    st: St,
    fuel: nat,
    body: Ir,
    not_a_cell: CodegenError,
    vars: Vars,
    turns: nat,
    m: Machine,
)
    requires
        !st.cx.gc,
        plain_ir(body, false),
        at_hand(st, vars, m),
        st.func_body(fuel, body, not_a_cell) is Ok,
        countable(st.func_body(fuel, body, not_a_cell)->Ok_0),
    ensures
        answers(
            st.func_body(fuel, body, not_a_cell)->Ok_0.script,
            st.script.len() as int,
            m,
            ir_meaning(body, vars, turns),
        ),
        extends(st.func_body(fuel, body, not_a_cell)->Ok_0.script, st.script),
        st.script.len() <= st.func_body(fuel, body, not_a_cell)->Ok_0.script.len(),
{
    let n = st.script.len() as int;
    lemma_of_ir(st, fuel, body);
    let (end, v) = of_ir(st, fuel, body)->Ok_0;
    let e = end.script.len() as int;
    let script = st.func_body(fuel, body, not_a_cell)->Ok_0.script;
    assert(script =~= end.script.push(Cmd::Ret { val: v }));
    lemma_ir_len(st, fuel, body);
    lemma_ir_grown(st, fuel, body);
    lemma_extends(st.script, end.script, script);
    let (after, j) = lemma_ir_runs(st, fuel, body, vars, turns, script, m);
    match ir_meaning(body, vars, turns) {
        Meant::Word(w) => {
            assert(run(script, e, after) == Outcome::Returned(w, m.store()));
            assert forall|t: nat| t >= j implies #[trigger] runs(script, n, m, t) == Outcome::Returned(
                w,
                m.store(),
            ) by {
                assert(runs(script, n, m, t) == runs(script, e, after, (t - j) as nat));
            }
            assert(returns_in(script, n, m, w, j));
        },
        Meant::Trap => {
            assert(traps_in(script, n, m, j));
        },
        Meant::Open => {},
    }
}

/// What comes before code that answers may go first.
pub(crate) proof fn lemma_answers_from(script: Seq<Cmd>, pc: int, n: int, m: Machine, meant: Meant)
    requires
        run(script, pc, m) == run(script, n, m),
        answers(script, n, m, meant),
    ensures
        answers(script, pc, m, meant),
{
    lemma_run_leads(script, pc, m, n, m);
    match meant {
        Meant::Word(w) => {
            let j = choose|j: nat| #[trigger] returns_in(script, n, m, w, j);
            assert forall|t: nat| t >= j implies #[trigger] runs(script, pc, m, t)
                == Outcome::Returned(w, m.store()) by {
                assert(runs(script, n, m, t) == Outcome::Returned(w, m.store()));
            }
            assert(returns_in(script, pc, m, w, j));
        },
        Meant::Trap => {
            let j = choose|j: nat| #[trigger] traps_in(script, n, m, j);
            lemma_leads_to_trap(script, pc, m, n, m, 0, j);
        },
        Meant::Open => {},
    }
}

/// Where the entry of a program begins.
pub const ENTRY: u64 = 2;

/// The module of a program of integers that needs no collector returns what the
/// program means: from the entry on its code returns that word as the exit code, or
/// traps.
pub proof fn a_module_returns_what_its_program_means(
    ir: Ir,
    pure: Rc<Row>,
    depth: nat,
    turns: nat,
    m: Machine,
)
    requires
        plain_ir(ir, false),
        !performs_gc(ir),
        program(ir, false, pure, depth) is Ok,
        program(ir, false, pure, depth)->Ok_0.len() + 64 <= u64::MAX,
        m.args.len() == 0,
    ensures
        answers(
            program(ir, false, pure, depth)->Ok_0,
            ENTRY as int,
            m,
            ir_meaning(ir, Map::empty(), turns),
        ),
{
    let st = St::fresh(Seq::empty(), false, pure).open_func(FuncName::Main, 0);
    let script = program(ir, false, pure, depth)->Ok_0;
    assert(st.script.len() == 3);
    assert(st.script[2] == (Cmd::At { block: 1 }));
    assert(settled(st));
    assert(env_ready(st));
    lemma_body_answers(st, depth, ir, CodegenError::NotAnExitCode, Map::empty(), turns, m);
    assert(script[2] == st.script[2]);
    assert(run(script, 2, m) == run(script, 3, m));
    lemma_answers_from(script, 2, 3, m, ir_meaning(ir, Map::empty(), turns));
}

/// A closed program of integers that needs no collector always has a module.
pub proof fn closed_programs_have_a_module(ir: Ir, pure: Rc<Row>, depth: nat)
    requires
        known_ir(ir, Set::empty(), false),
        !performs_gc(ir),
    ensures
        program(ir, false, pure, depth) is Ok,
{
    let st = St::fresh(Seq::empty(), false, pure).open_func(FuncName::Main, 0);
    programs_of_integers_are_lowered(st, depth, ir, Set::empty());
}

/// The words of the first `n` parameters of a function.
pub open spec fn param_words(params: Seq<Param>, func: u64, n: nat, m: Machine) -> Vars
    decreases n,
{
    if n == 0 {
        Map::empty()
    } else {
        param_words(params, func, (n - 1) as nat, m).insert(
            params[n - 1].name@,
            m.params[(func, (n - 1) as u32)],
        )
    }
}

pub(crate) proof fn lemma_cell_params(st: St, n: nat)
    ensures
        st.cell_params(n).script.len() == st.script.len() + n,
        extends(st.cell_params(n).script, st.script),
        st.cell_params(n).cx == st.cx,
        forall|i: int|
            st.script.len() <= i < st.script.len() + n ==> #[trigger] st.cell_params(n).script[i] is Param,
    decreases n,
{
    if n > 0 {
        lemma_cell_params(st, (n - 1) as nat);
        lemma_extends(st.script, st.cell_params((n - 1) as nat).script, st.cell_params(n).script);
        assert forall|i: int| st.script.len() <= i < st.script.len() + n implies #[trigger] st.cell_params(
            n,
        ).script[i] is Param by {
            if i < st.script.len() + n - 1 {
                assert(st.cell_params(n).script[i] == st.cell_params((n - 1) as nat).script[i]);
            }
        }
    }
}

pub(crate) proof fn lemma_bind_cells(st: St, func: u64, params: Seq<Param>, i: nat, m: Machine)
    requires
        i <= params.len(),
        env_ready(st),
        models(st, m, param_words(params, func, i, m)),
    ensures
        env_ready(st.bind_cells(func, params, i)),
        models(st.bind_cells(func, params, i), m, param_words(params, func, params.len(), m)),
        st.bind_cells(func, params, i).script == st.script,
        st.bind_cells(func, params, i).cx.gc == st.cx.gc,
        st.bind_cells(func, params, i).cx.block == st.cx.block,
    decreases params.len() - i,
{
    if i < params.len() {
        let p = params[i as int];
        let v = Val { id: Id::Param { func, index: i as u32 }, ty: Ty::I64 };
        lemma_bound(st, p.name, v, p.ty, p.layout);
        lemma_models_bound(st, p.name, v, p.ty, p.layout, m, param_words(params, func, i, m));
        lemma_bind_cells(st.bind(p.name, v, p.ty, p.layout), func, params, i + 1, m);
    }
}

/// An exported function of integers that needs no collector returns what its body
/// means for the words it is called with, or traps.
pub proof fn an_export_returns_what_its_body_means(
    script: Seq<Cmd>,
    exported: LibExport,
    pure: Rc<Row>,
    depth: nat,
    turns: nat,
    m: Machine,
)
    requires
        own_blocks(script, 0, script.len() as int),
        plain_ir(exported.body, false),
        !performs_gc(exported.body),
        export(script, exported, false, pure, depth) is Ok,
        export(script, exported, false, pure, depth)->Ok_0.len() + 64 <= u64::MAX,
        m.args.len() == 0,
    ensures
        answers(
            export(script, exported, false, pure, depth)->Ok_0,
            script.len() as int + exported.params@.len() + 2,
            m,
            ir_meaning(
                exported.body,
                param_words(exported.params@, script.len() as u64, exported.params@.len(), m),
                turns,
            ),
        ),
{
    let params = exported.params@;
    let func = script.len() as u64;
    let n0 = script.len() as int;
    let k = params.len() as int;
    let fresh = St::fresh(script, false, pure);
    let named = fresh.put(Cmd::Func { name: FuncName::Export(exported.symbol), ret: Ty::I64 });
    let opened_st = fresh.open_func(FuncName::Export(exported.symbol), params.len());
    let st = opened_st.bind_cells(func, params, 0);
    let vars = param_words(params, func, params.len(), m);
    lemma_cell_params(named, params.len());
    let held = named.cell_params(params.len());
    assert(opened_st.script =~= held.script.push(Cmd::Block { func, label: "entry" }).push(
        Cmd::At { block: held.script.len() as u64 },
    ));
    assert(env_ready(opened_st));
    lemma_bind_cells(opened_st, func, params, 0, m);
    let end = export(script, exported, false, pure, depth)->Ok_0;
    lemma_body_len(st, depth, exported.body, CodegenError::NotACell("library export result"));
    assert(n0 + k + 3 == st.script.len());
    assert(settled(st)) by {
        assert(st.script[n0 + k + 2] == (Cmd::At { block: (n0 + k + 1) as u64 }));
        assert forall|i: int| 0 <= i < st.script.len() implies match #[trigger] st.script[i] {
            Cmd::At { block } => 0 <= block < st.script.len(),
            Cmd::Incoming { phi, .. } => 0 <= phi < st.script.len(),
            _ => true,
        } by {
            if i < n0 {
                assert(st.script[i] == held.script[i]);
                assert(held.script[i] == named.script[i]);
            } else if i < n0 + k + 1 {
                assert(st.script[i] == held.script[i]);
                if i == n0 {
                    assert(held.script[i] == named.script[i]);
                }
            }
        }
    }
    lemma_body_answers(
        st,
        depth,
        exported.body,
        CodegenError::NotACell("library export result"),
        vars,
        turns,
        m,
    );
    let pc = n0 + k + 2;
    assert(end[pc] == st.script[pc]);
    assert(run(end, pc, m) == run(end, pc + 1, m));
    lemma_answers_from(end, pc, pc + 1, m, ir_meaning(exported.body, vars, turns));
}

proof fn lemma_body_len(st: St, fuel: nat, body: Ir, not_a_cell: CodegenError)
    requires
        !st.cx.gc,
        plain_ir(body, false),
        st.func_body(fuel, body, not_a_cell) is Ok,
    ensures
        st.script.len() <= st.func_body(fuel, body, not_a_cell)->Ok_0.script.len(),
{
    lemma_of_ir(st, fuel, body);
    lemma_ir_len(st, fuel, body);
}

} // verus!
