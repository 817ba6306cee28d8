//! What is proved of lambdas: the functions lifted from them return what their
//! bodies mean, and their closures hold what those functions find.
use crate::applying::{applied, entered, goes_on, slot_of};
use crate::blocks::Param;
use crate::captures::{cells_before, packed, RESERVED};
use crate::closures::abi_ty;
use crate::error::CodegenError;
use crate::ir::{Comp, Ir, Type, ValueLayout};
use crate::layout::CaptureInfo;
use crate::meaning::{extends, ready, run, runs, word, Answer, Code, Machine, Outcome, Room, Store};
use crate::programs::{fun_meaning, ir_meaning, plain_fun, plain_ir, with_words, Fun, Meant, Vars};
use crate::running::{answers, apart, lemma_ir_runs, lemma_run_leads, returns_in, traps_in};
use crate::shape::{
    countable, env_ready, lemma_extends, lemma_ir_grown, lemma_ir_len, lemma_of_ir, of_ir,
    own_blocks,
};
use crate::state::St;
use crate::tails::{
    a_lifted_loop_returns_what_the_recursion_means,
    an_uncurried_loop_returns_what_the_recursion_means, captured, fast_loop, lam_body, lam_loops,
    lam_param, lemma_prologue_runs, lemma_prologue_start, lemma_returned, lifted_loop, names_of,
    passed, plain_capture, prologue, returned,
};
use crate::target::{constant, Callee, Cmd, Conv, FuncName, Id, Ty, Val};
use std::rc::Rc;
use vstd::prelude::*;

verus! {

// ── functions that do not loop ───────────────────────────────────────────
/// The words that the body of a function finds: its arguments, and what its
/// closure captured.
pub open spec fn found(params: Seq<Param>, caps: Seq<CaptureInfo>, func: u64, m: Machine) -> Vars {
    captured(
        caps,
        caps.len(),
        m.params[(func, 0u32)],
        m.mem,
        with_words(names_of(params), passed(func, params.len(), m), params.len(), Map::empty()),
    )
}

/// The parts of a function that does not loop.
pub struct PlainFun {
    pub tys: Seq<Ty>,
    pub ret: Ty,
    pub start: St,
    pub out: St,
    pub v: Val,
}

pub(crate) proof fn lemma_plain_answers(
    st: St,
    fuel: nat,
    name: FuncName,
    params: Seq<Param>,
    caps: Seq<CaptureInfo>,
    body: Ir,
    p: PlainFun,
    turns: nat,
    script: Seq<Cmd>,
    m: Machine,
)
    requires
        !st.cx.gc,
        own_blocks(st.script, 0, st.script.len() as int),
        plain_ir(body, false),
        forall|k: int| 0 <= k < caps.len() ==> plain_capture(#[trigger] caps[k]),
        p.tys.len() == params.len(),
        prologue(st, name, p.ret, params, p.tys, caps) is Ok,
        prologue(st, name, p.ret, params, p.tys, caps)->Ok_0.0 == p.start,
        of_ir(p.start, fuel, body) == Ok::<(St, Val), CodegenError>((p.out, p.v)),
        countable(p.out),
        extends(script, p.out.script.push(Cmd::Ret { val: p.v })),
        apart(script, st.script.len() as int, p.out.script.len() as int),
        m.args.len() == 0,
    ensures
        answers(
            script,
            st.script.len() as int + params.len() + 4,
            m,
            ir_meaning(body, found(params, caps, st.here(), m), turns),
        ),
{
    let n = st.script.len() as int + params.len() + 4;
    let start = p.start;
    let k = start.script.len() as int;
    let e = p.out.script.len() as int;
    lemma_prologue_start(st, name, p.ret, params, p.tys, caps);
    lemma_ir_len(start, fuel, body);
    let _ = lemma_prologue_runs(st, name, p.ret, params, p.tys, caps, start.script, m);
    lemma_ir_grown(start, fuel, body);
    let whole = p.out.script.push(Cmd::Ret { val: p.v });
    assert(extends(whole, p.out.script));
    assert(script[e] == whole[e]);
    lemma_extends(p.out.script, whole, script);
    lemma_extends(start.script, p.out.script, script);
    let (seen, mid) = lemma_prologue_runs(st, name, p.ret, params, p.tys, caps, script, m);
    assert(seen == found(params, caps, st.here(), m));
    assert(apart(script, k, e));
    let (after, j) = lemma_ir_runs(start, fuel, body, seen, turns, script, mid);
    let meant = ir_meaning(body, seen, turns);
    lemma_run_leads(script, n, m, k, mid);
    match meant {
        Meant::Word(w) => {
            assert(run(script, e, after) == Outcome::Returned(w, mid.store()));
            assert(returned(script, e, after, meant, 0));
            lemma_returned(script, k, mid, e, after, j, meant, 0);
            lemma_returned(script, n, m, k, mid, 0, meant, j);
            assert(returns_in(script, n, m, w, j));
        },
        Meant::Trap => {
            lemma_returned(script, n, m, k, mid, 0, meant, j);
            assert(traps_in(script, n, m, j));
        },
        Meant::Open => {},
    }
}

/// The function lifted from a lambda without a name of its own.
#[verifier::opaque]
pub open spec fn lifted(st: St, fuel: nat, lam: Comp, caps: Seq<CaptureInfo>) -> Result<
    (St, u64),
    CodegenError,
> {
    st.lift(fuel, None, lam, caps)
}

pub(crate) proof fn lemma_of_plain_lift(st: St, fuel: nat, lam: Comp, caps: Seq<CaptureInfo>) -> (p: PlainFun)
    requires
        !st.cx.gc,
        lam is Lam,
        forall|k: int| 0 <= k < caps.len() ==> plain_capture(#[trigger] caps[k]),
        lifted(st, fuel, lam, caps) is Ok,
    ensures
        p.tys.len() == 1,
        prologue(st, FuncName::Lam(st.cx.lifted), p.ret, seq![lam_param(lam)], p.tys, caps) is Ok,
        prologue(
            st,
            FuncName::Lam(st.cx.lifted),
            p.ret,
            seq![lam_param(lam)],
            p.tys,
            caps,
        )->Ok_0.0 == p.start,
        of_ir(p.start, fuel, lam_body(lam)) == Ok::<(St, Val), CodegenError>((p.out, p.v)),
        lifted(st, fuel, lam, caps)->Ok_0.0.script == p.out.script.push(
            Cmd::Ret { val: p.v },
        ).push(Cmd::At { block: st.cx.block }),
        lifted(st, fuel, lam, caps)->Ok_0.0 == p.out.put(Cmd::Ret { val: p.v }).in_env(
            st.cx.env,
        ).with_func(st.cx.func).at(st.cx.block),
        lifted(st, fuel, lam, caps)->Ok_0.1 == st.here(),
        abi_ty(lam_param(lam).ty) == Ok::<Ty, CodegenError>(p.tys[0]),
{
    reveal(lifted);
    reveal(prologue);
    reveal_with_fuel(St::bind_params, 2);
    let params = seq![lam_param(lam)];
    let ret = abi_ty(lam->Lam_ret_ty)->Ok_0;
    let tys = seq![abi_ty(lam_param(lam).ty)->Ok_0];
    let (start, frame) = prologue(st, FuncName::Lam(st.cx.lifted), ret, params, tys, caps)->Ok_0;
    lemma_prologue_start(st, FuncName::Lam(st.cx.lifted), ret, params, tys, caps);
    lemma_of_ir(start, fuel, lam_body(lam));
    let (out, v) = of_ir(start, fuel, lam_body(lam))->Ok_0;
    PlainFun { tys, ret, start, out, v }
}

/// The function lifted from a lambda of integers returns what the lambda's body
/// means where its parameter has the word that was passed and its captures have the
/// words in its closure, or traps.
pub proof fn a_lifted_function_returns_what_its_body_means(
    st: St,
    fuel: nat,
    lam: Comp,
    caps: Seq<CaptureInfo>,
    turns: nat,
    script: Seq<Cmd>,
    m: Machine,
)
    requires
        !st.cx.gc,
        own_blocks(st.script, 0, st.script.len() as int),
        lam is Lam,
        plain_ir(lam_body(lam), false),
        forall|k: int| 0 <= k < caps.len() ==> plain_capture(#[trigger] caps[k]),
        lifted(st, fuel, lam, caps) is Ok,
        countable(lifted(st, fuel, lam, caps)->Ok_0.0),
        extends(script, lifted(st, fuel, lam, caps)->Ok_0.0.script),
        apart(
            script,
            st.script.len() as int,
            lifted(st, fuel, lam, caps)->Ok_0.0.script.len() - 1,
        ),
        m.args.len() == 0,
    ensures
        answers(
            script,
            st.script.len() as int + 5,
            m,
            ir_meaning(lam_body(lam), found(seq![lam_param(lam)], caps, st.here(), m), turns),
        ),
{
    let p = lemma_of_plain_lift(st, fuel, lam, caps);
    let end = p.out.script.push(Cmd::Ret { val: p.v });
    let whole = end.push(Cmd::At { block: st.cx.block });
    assert(extends(whole, end));
    lemma_extends(end, whole, script);
    assert(script[p.out.script.len() as int] == end[p.out.script.len() as int]);
    assert(apart(script, st.script.len() as int, p.out.script.len() as int));
    lemma_plain_answers(
        st,
        fuel,
        FuncName::Lam(st.cx.lifted),
        seq![lam_param(lam)],
        caps,
        lam_body(lam),
        p,
        turns,
        script,
        m,
    );
}

// ── applying closures ────────────────────────────────────────────────────
/// The machine that begins a function: its arguments, and what is stored.
pub open spec fn called(func: u64, args: Seq<u64>, s: Store, code: Code, room: Room) -> Machine {
    Machine {
        regs: Map::empty(),
        params: Map::new(
            |k: (u64, u32)| k.0 == func && k.1 < args.len(),
            |k: (u64, u32)| args[k.1 as int],
        ),
        lanes: Map::empty(),
        wide: Map::empty(),
        pairs: Map::empty(),
        args: Seq::empty(),
        mem: s.mem,
        objects: s.objects,
        code,
        room,
        fields: arbitrary(),
        floats: arbitrary(),
        foreign: arbitrary(),
        came: 0,
        held: Map::empty(),
    }
}

/// A function that is called begins behind its parameters and its first block.
pub open spec fn begins(func: u64, args: Seq<u64>) -> int {
    func + args.len() + 3
}

/// What is called are the functions of the script: a call answers what the
/// function's own code returns.
pub open spec fn of_script(code: Code, room: Room, script: Seq<Cmd>) -> bool {
    forall|func: u64, args: Seq<u64>, s: Store, t: nat|
        match #[trigger] runs(
            script,
            begins(func, args),
            called(func, args, s, code, room),
            t,
        ) {
            Outcome::Returned(w, after) => code(func, args, s) == Answer::Word(w, after),
            Outcome::Trap => code(func, args, s) is Trap,
            _ => true,
        }
}

/// A call answers what was meant, and stores nothing.
pub open spec fn means(answer: Answer, meant: Meant, s: Store) -> bool {
    match meant {
        Meant::Word(w) => answer == Answer::Word(w, s),
        Meant::Trap => answer is Trap,
        Meant::Open => true,
    }
}

pub(crate) proof fn lemma_called(
    script: Seq<Cmd>,
    func: u64,
    args: Seq<u64>,
    s: Store,
    code: Code,
    room: Room,
    meant: Meant,
)
    requires
        of_script(code, room, script),
        answers(script, begins(func, args), called(func, args, s, code, room), meant),
    ensures
        means(code(func, args, s), meant, s),
{
    let m = called(func, args, s, code, room);
    let pc = begins(func, args);
    match meant {
        Meant::Word(w) => {
            let j = choose|j: nat| #[trigger] returns_in(script, pc, m, w, j);
            assert(runs(script, pc, m, j) == Outcome::Returned(w, m.store()));
        },
        Meant::Trap => {
            let j = choose|j: nat| #[trigger] traps_in(script, pc, m, j);
            assert(runs(script, pc, m, j) is Trap);
        },
        Meant::Open => {},
    }
}

/// The closure of a lambda of integers, applied to a word, answers what the lambda's
/// body means where its parameter has that word and its captures have the words that
/// the closure holds.
pub proof fn a_lambda_applied_means_its_body(
    st: St,
    fuel: nat,
    lam: Comp,
    caps: Seq<CaptureInfo>,
    turns: nat,
    script: Seq<Cmd>,
    code: Code,
    room: Room,
    clos: u64,
    arg: u64,
    s: Store,
)
    requires
        !st.cx.gc,
        own_blocks(st.script, 0, st.script.len() as int),
        lam is Lam,
        plain_ir(lam_body(lam), false),
        forall|k: int| 0 <= k < caps.len() ==> plain_capture(#[trigger] caps[k]),
        lifted(st, fuel, lam, caps) is Ok,
        countable(lifted(st, fuel, lam, caps)->Ok_0.0),
        extends(script, lifted(st, fuel, lam, caps)->Ok_0.0.script),
        apart(
            script,
            st.script.len() as int,
            lifted(st, fuel, lam, caps)->Ok_0.0.script.len() - 1,
        ),
        of_script(code, room, script),
        slot_of(false, s, clos, 0) == lifted(st, fuel, lam, caps)->Ok_0.1,
    ensures
        means(
            applied(false, code, clos, arg, s),
            ir_meaning(
                lam_body(lam),
                captured(
                    caps,
                    caps.len(),
                    clos,
                    s.mem,
                    Map::empty().insert(lam_param(lam).name@, arg),
                ),
                turns,
            ),
            s,
        ),
{
    let func = st.here();
    let args = seq![clos, arg];
    let m = called(func, args, s, code, room);
    let p = lemma_of_plain_lift(st, fuel, lam, caps);
    lemma_prologue_start(st, FuncName::Lam(st.cx.lifted), p.ret, seq![lam_param(lam)], p.tys, caps);
    lemma_ir_len(p.start, fuel, lam_body(lam));
    a_lifted_function_returns_what_its_body_means(st, fuel, lam, caps, turns, script, m);
    let params = seq![lam_param(lam)];
    let names = names_of(params);
    assert(m.params[(func, 0u32)] == clos);
    assert(m.params[(func, 1u32)] == arg);
    assert(passed(func, 1, m) =~= seq![arg]);
    assert(with_words(names, seq![arg], 1, Map::empty()) == Map::<Seq<char>, u64>::empty().insert(
        lam_param(lam).name@,
        arg,
    )) by {
        reveal_with_fuel(with_words, 2);
        assert(names[0] == lam_param(lam).name@);
    }
    let meant = ir_meaning(lam_body(lam), found(params, caps, func, m), turns);
    lemma_called(script, func, args, s, code, room, meant);
}

pub(crate) proof fn lemma_passed(func: u64, clos: u64, args: Seq<u64>, s: Store, code: Code, room: Room)
    requires
        args.len() < u32::MAX,
    ensures
        passed(func, args.len(), called(func, seq![clos] + args, s, code, room)) == args,
        called(func, seq![clos] + args, s, code, room).params[(func, 0u32)] == clos,
{
    let m = called(func, seq![clos] + args, s, code, room);
    assert forall|i: int| 0 <= i < args.len() implies #[trigger] passed(func, args.len(), m)[i] == args[i] by {
        assert((i + 1) as u32 == i + 1);
        assert((seq![clos] + args)[i + 1] == args[i]);
    }
    assert(passed(func, args.len(), m) =~= args);
}

/// The closure of a function of one argument that calls itself last, applied to a
/// word, answers what the recursion means on that word.
pub proof fn a_recursive_lambda_applied_means_the_recursion(
    st: St,
    fuel: nat,
    own: String,
    lam: Comp,
    caps: Seq<CaptureInfo>,
    turns: nat,
    depth: nat,
    script: Seq<Cmd>,
    code: Code,
    room: Room,
    clos: u64,
    arg: u64,
    s: Store,
)
    requires
        !st.cx.gc,
        own_blocks(st.script, 0, st.script.len() as int),
        lam_loops(lam),
        plain_fun(
            Fun {
                own: own@,
                params: seq![lam_param(lam).name@],
                uncurried: false,
                body: lam_body(lam),
            },
        ),
        forall|k: int| 0 <= k < caps.len() ==> plain_capture(#[trigger] caps[k]),
        lifted_loop(st, fuel, own, lam, caps) is Ok,
        countable(lifted_loop(st, fuel, own, lam, caps)->Ok_0.0),
        st.script.len() <= u64::MAX,
        extends(script, lifted_loop(st, fuel, own, lam, caps)->Ok_0.0.script),
        apart(
            script,
            st.script.len() as int,
            lifted_loop(st, fuel, own, lam, caps)->Ok_0.0.script.len() - 1,
        ),
        of_script(code, room, script),
        slot_of(false, s, clos, 0) == st.here(),
    ensures
        means(
            applied(false, code, clos, arg, s),
            fun_meaning(
                Fun {
                    own: own@,
                    params: seq![lam_param(lam).name@],
                    uncurried: false,
                    body: lam_body(lam),
                },
                seq![arg],
                captured(caps, caps.len(), clos, s.mem, Map::empty()),
                turns,
                depth,
            ),
            s,
        ),
{
    let f = Fun {
        own: own@,
        params: seq![lam_param(lam).name@],
        uncurried: false,
        body: lam_body(lam),
    };
    let func = st.here();
    let m = called(func, seq![clos] + seq![arg], s, code, room);
    a_lifted_loop_returns_what_the_recursion_means(
        st,
        fuel,
        own,
        lam,
        caps,
        turns,
        depth,
        script,
        m,
    );
    lemma_passed(func, clos, seq![arg], s, code, room);
    assert(seq![clos] + seq![arg] =~= seq![clos, arg]);
    let seen = captured(caps, caps.len(), clos, s.mem, Map::empty());
    let meant = fun_meaning(f, seq![arg], seen, turns, depth);
    lemma_called(script, func, seq![clos, arg], s, code, room, meant);
}

/// The uncurried entry of a function that calls itself last answers what the
/// recursion means on its arguments.
pub proof fn an_uncurried_entry_means_the_recursion(
    st: St,
    fuel: nat,
    own: String,
    params: Seq<Param>,
    caps: Seq<CaptureInfo>,
    body: Ir,
    ret_ty: Rc<Type>,
    turns: nat,
    depth: nat,
    script: Seq<Cmd>,
    code: Code,
    room: Room,
    clos: u64,
    args: Seq<u64>,
    s: Store,
)
    requires
        !st.cx.gc,
        own_blocks(st.script, 0, st.script.len() as int),
        plain_fun(Fun { own: own@, params: names_of(params), uncurried: true, body }),
        forall|k: int| 0 <= k < caps.len() ==> plain_capture(#[trigger] caps[k]),
        fast_loop(st, fuel, own, params, caps, body, ret_ty) is Ok,
        countable(fast_loop(st, fuel, own, params, caps, body, ret_ty)->Ok_0.0),
        st.script.len() <= u64::MAX,
        extends(script, fast_loop(st, fuel, own, params, caps, body, ret_ty)->Ok_0.0.script),
        apart(
            script,
            st.script.len() as int,
            fast_loop(st, fuel, own, params, caps, body, ret_ty)->Ok_0.0.script.len() - 1,
        ),
        of_script(code, room, script),
        args.len() == params.len(),
        args.len() < u32::MAX,
        slot_of(false, s, clos, 1) == st.here(),
    ensures
        means(
            entered(false, code, clos, args, s),
            fun_meaning(
                Fun { own: own@, params: names_of(params), uncurried: true, body },
                args,
                captured(caps, caps.len(), clos, s.mem, Map::empty()),
                turns,
                depth,
            ),
            s,
        ),
{
    let f = Fun { own: own@, params: names_of(params), uncurried: true, body };
    let func = st.here();
    let m = called(func, seq![clos] + args, s, code, room);
    an_uncurried_loop_returns_what_the_recursion_means(
        st,
        fuel,
        own,
        params,
        caps,
        body,
        ret_ty,
        turns,
        depth,
        script,
        m,
    );
    lemma_passed(func, clos, args, s, code, room);
    let seen = captured(caps, caps.len(), clos, s.mem, Map::empty());
    let meant = fun_meaning(f, args, seen, turns, depth);
    lemma_called(script, func, seq![clos] + args, s, code, room, meant);
}

// ── closures ─────────────────────────────────────────────────────────────
/// The captures stand one behind the other, behind the reserved cells.
pub open spec fn in_a_row(caps: Seq<CaptureInfo>) -> bool {
    forall|i: int| 0 <= i < caps.len() ==> (#[trigger] caps[i]).raw_slot == RESERVED + i
}

/// What a variable in scope stands for.
pub open spec fn in_scope(st: St, name: Seq<char>) -> Val {
    st.cx.env.get(name)->0.value
}

/// The word that a variable in scope has.
pub open spec fn word_in_scope(st: St, m: Machine, name: Seq<char>) -> u64 {
    m.value(in_scope(st, name))
}

/// Memory once the first `n` captures were stored behind `at`.
pub open spec fn filled(st: St, m: Machine, caps: Seq<CaptureInfo>, n: nat, at: u64, mem: Map<u64, u64>) -> Map<
    u64,
    u64,
>
    decreases n,
{
    if n == 0 {
        mem
    } else {
        filled(st, m, caps, (n - 1) as nat, at, mem).insert(
            word(at + caps[n - 1].raw_slot * 8),
            word_in_scope(st, m, caps[n - 1].name@),
        )
    }
}

/// The captured variables are cells.
pub open spec fn cells_in_scope(st: St, caps: Seq<CaptureInfo>) -> bool {
    forall|i: int|
        0 <= i < caps.len() ==> (st.cx.env.get((#[trigger] caps[i]).name@) matches Some(e)
            ==> e.value.ty is I64)
}

pub(crate) proof fn lemma_store_capture(st: St, clos: Val, cap: CaptureInfo)
    requires
        !st.cx.gc,
        plain_capture(cap),
        st.store_capture(clos, cap) is Ok,
        st.cx.env.get(cap.name@) matches Some(e) ==> e.value.ty is I64,
    ensures
        st.cx.env.get(cap.name@) is Some,
        st.store_capture(clos, cap)->Ok_0 == st.put(
            Cmd::Gep { elem: Ty::I64, base: clos, index: constant(cap.raw_slot), label: "cap.store" },
        ).put(
            Cmd::Store {
                ptr: Val { id: Id::Reg(st.script.len() as u64), ty: Ty::Ptr },
                val: st.cx.env.get(cap.name@)->0.value,
                align: 0,
            },
        ),
{
    reveal_with_fuel(St::set_block_words, 2);
}

pub(crate) proof fn lemma_store_len(st: St, clos: Val, caps: Seq<CaptureInfo>, i: nat)
    requires
        i <= caps.len(),
        !st.cx.gc,
        forall|k: int| 0 <= k < caps.len() ==> plain_capture(#[trigger] caps[k]),
        cells_in_scope(st, caps),
        st.store_captures(clos, caps, i) is Ok,
    ensures
        st.store_captures(clos, caps, i)->Ok_0.script.len() == st.script.len() + 2 * (caps.len() - i),
        extends(st.store_captures(clos, caps, i)->Ok_0.script, st.script),
    decreases caps.len() - i,
{
    if i < caps.len() {
        let next = st.store_capture(clos, caps[i as int])->Ok_0;
        assert(cells_in_scope(st, caps));
        assert(st.cx.env.get(caps[i as int].name@) matches Some(e) ==> e.value.ty is I64);
        lemma_store_capture(st, clos, caps[i as int]);
        assert(cells_in_scope(next, caps));
        lemma_store_len(next, clos, caps, i + 1);
        assert(extends(next.script, st.script));
        lemma_extends(st.script, next.script, st.store_captures(clos, caps, i)->Ok_0.script);
    }
}

/// Storing the captures of a closure.
proof fn lemma_store_runs(
    start: St,
    st: St,
    clos: Val,
    caps: Seq<CaptureInfo>,
    i: nat,
    script: Seq<Cmd>,
    m0: Machine,
    m: Machine,
) -> (after: Machine)
    requires
        i <= caps.len(),
        !st.cx.gc,
        forall|k: int| 0 <= k < caps.len() ==> plain_capture(#[trigger] caps[k]),
        cells_in_scope(st, caps),
        env_ready(start),
        st.cx.env == start.cx.env,
        start.script.len() <= st.script.len(),
        ready(start, clos),
        st.store_captures(clos, caps, i) is Ok,
        countable(st.store_captures(clos, caps, i)->Ok_0),
        extends(script, st.store_captures(clos, caps, i)->Ok_0.script),
        goes_on(m0, m, start.script.len() as int),
        m.mem == filled(start, m0, caps, i, m0.value(clos), m0.mem),
        m.objects == m0.objects,
    ensures
        run(script, st.script.len() as int, m) == run(
            script,
            st.store_captures(clos, caps, i)->Ok_0.script.len() as int,
            after,
        ),
        goes_on(m0, after, start.script.len() as int),
        after.mem == filled(start, m0, caps, caps.len(), m0.value(clos), m0.mem),
        after.objects == m0.objects,
    decreases caps.len() - i,
{
    if i < caps.len() {
        let n = st.script.len() as int;
        let cap = caps[i as int];
        let end = st.store_captures(clos, caps, i)->Ok_0;
        let next = st.store_capture(clos, cap)->Ok_0;
        assert(st.cx.env.get(cap.name@) matches Some(e) ==> e.value.ty is I64);
        lemma_store_capture(st, clos, cap);
        assert(cells_in_scope(next, caps));
        lemma_store_len(next, clos, caps, i + 1);
        lemma_extends(next.script, end.script, script);
        assert(script[n] == next.script[n]);
        assert(script[n + 1] == next.script[n + 1]);
        let v = in_scope(st, cap.name@);
        assert(ready(start, v));
        assert(m.value(v) == m0.value(v));
        assert(m.value(clos) == m0.value(clos));
        let at = word(m0.value(clos) + cap.raw_slot * 8);
        let m1 = m.set(n, at);
        let m2 = Machine { mem: m1.mem.insert(at, m0.value(v)), ..m1 };
        assert(run(script, n, m) == run(script, n + 1, m1));
        assert(m1.value(v) == m0.value(v));
        assert(run(script, n + 1, m1) == run(script, n + 2, m2));
        assert(goes_on(m0, m2, start.script.len() as int));
        assert(m2.mem == filled(start, m0, caps, i + 1, m0.value(clos), m0.mem));
        lemma_store_runs(start, next, clos, caps, i + 1, script, m0, m2)
    } else {
        m
    }
}

/// The cells that captures take hold their words, and the others what they held.
proof fn lemma_filled(
    st: St,
    m: Machine,
    caps: Seq<CaptureInfo>,
    n: nat,
    at: u64,
    mem: Map<u64, u64>,
    x: u64,
)
    requires
        n <= caps.len(),
        in_a_row(caps),
        at + (RESERVED + caps.len()) * 8 <= 0x1_0000_0000_0000_0000,
    ensures
        forall|i: int|
            0 <= i < n && x == at + (RESERVED + i) * 8 ==> filled(st, m, caps, n, at, mem)[x]
                == word_in_scope(st, m, (#[trigger] caps[i]).name@),
        x < at + RESERVED * 8 || x >= at + (RESERVED + n) * 8 ==> filled(st, m, caps, n, at, mem)[x]
            == mem[x],
    decreases n,
{
    if n > 0 {
        lemma_filled(st, m, caps, (n - 1) as nat, at, mem, x);
        assert(caps[n - 1].raw_slot == RESERVED + (n - 1));
        assert(word(at + caps[n - 1].raw_slot * 8) == at + (RESERVED + (n - 1)) * 8);
    }
}

/// One of the first `n` cells behind an address.
pub open spec fn taken(at: u64, n: nat, x: u64) -> bool {
    at <= x < at + n * 8 && (x - at) % 8 == 0
}

/// The first `n` cells behind an address came into use, beside those that were.
pub open spec fn takes_up(at: u64, n: nat, before: Map<u64, u64>, after: Map<u64, u64>) -> bool {
    forall|x: u64| #[trigger]
        after.dom().contains(x) == (before.dom().contains(x) || taken(at, n, x))
}

proof fn lemma_takes_up(
    begun: St,
    caps: Seq<CaptureInfo>,
    at: u64,
    m: Machine,
    n: int,
    entry: u64,
    fast: u64,
    arity: u64,
)
    requires
        in_a_row(caps),
        at + (RESERVED + caps.len()) * 8 <= 0x1_0000_0000_0000_0000,
    ensures
        ({
            let m8 = begun_machine(m, n, at, entry, fast, arity);
            takes_up(
                at,
                (RESERVED + caps.len()) as nat,
                m.mem,
                filled(begun, m8, caps, caps.len(), at, m8.mem),
            )
        }),
{
    let m8 = begun_machine(m, n, at, entry, fast, arity);
    let mem = filled(begun, m8, caps, caps.len(), at, m8.mem);
    assert forall|x: u64| #[trigger] mem.dom().contains(x) == (m.mem.dom().contains(x) || taken(
        at,
        (RESERVED + caps.len()) as nat,
        x,
    )) by {
        lemma_filled_cells(begun, m8, caps, caps.len(), at, m8.mem, x);
    }
}

/// The cells that are in use once the first `n` captures were stored.
proof fn lemma_filled_cells(
    st: St,
    m: Machine,
    caps: Seq<CaptureInfo>,
    n: nat,
    at: u64,
    mem: Map<u64, u64>,
    x: u64,
)
    requires
        n <= caps.len(),
        in_a_row(caps),
        at + (RESERVED + caps.len()) * 8 <= 0x1_0000_0000_0000_0000,
    ensures
        filled(st, m, caps, n, at, mem).dom().contains(x) == (mem.dom().contains(x) || (taken(
            at,
            (RESERVED + n) as nat,
            x,
        ) && x >= at + RESERVED * 8)),
    decreases n,
{
    if n > 0 {
        lemma_filled_cells(st, m, caps, (n - 1) as nat, at, mem, x);
        assert(caps[n - 1].raw_slot == RESERVED + (n - 1));
        assert(word(at + caps[n - 1].raw_slot * 8) == at + (RESERVED + (n - 1)) * 8);
    }
}

pub(crate) proof fn lemma_row(caps: Seq<CaptureInfo>, n: nat)
    requires
        packed(caps),
        forall|k: int| 0 <= k < caps.len() ==> plain_capture(#[trigger] caps[k]),
        n <= caps.len(),
    ensures
        cells_before(caps, n) == n,
    decreases n,
{
    if n > 0 {
        lemma_row(caps, (n - 1) as nat);
        assert(plain_capture(caps[n - 1]));
    }
}

/// The state in which the captures of a closure are stored, outside the managed
/// heap.
pub open spec fn closure_begun(
    st: St,
    own: Option<String>,
    fun_ty: Rc<Type>,
    size: u64,
    entry: Val,
    fast: Val,
    arity: Val,
) -> St {
    let n = st.script.len();
    let block = Val { id: Id::Reg((n + 1) as u64), ty: Ty::Ptr };
    let clos = Val { id: Id::Reg((n + 2) as u64), ty: Ty::I64 };
    let made = st.arg(constant(size)).put(
        Cmd::Call { callee: Callee::Known("locus_alloc"), ret: Ty::Ptr, label: "alloc" },
    ).put(Cmd::Convert { op: Conv::PtrToInt, a: block, ty: Ty::I64, label: "clos" });
    let named = match own {
        Some(name) => made.bind(name, clos, fun_ty, ValueLayout::scalar_cell_layout()),
        None => made,
    };
    named.put(
        Cmd::Gep { elem: Ty::I64, base: block, index: constant(0), label: "fn.slot" },
    ).put(
        Cmd::Store { ptr: Val { id: Id::Reg((n + 3) as u64), ty: Ty::Ptr }, val: entry, align: 0 },
    ).put(Cmd::Gep { elem: Ty::I64, base: block, index: constant(1), label: "fast.slot" }).put(
        Cmd::Store { ptr: Val { id: Id::Reg((n + 5) as u64), ty: Ty::Ptr }, val: fast, align: 0 },
    ).put(
        Cmd::Gep { elem: Ty::I64, base: block, index: constant(2), label: "fastarity.slot" },
    ).put(
        Cmd::Store { ptr: Val { id: Id::Reg((n + 7) as u64), ty: Ty::Ptr }, val: arity, align: 0 },
    )
}

/// The size of a closure with so many captures.
pub open spec fn closure_size(caps: Seq<CaptureInfo>) -> u64 {
    ((RESERVED + cells_before(caps, caps.len())) * 8) as u64
}

pub(crate) proof fn lemma_of_closure(
    st: St,
    own: Option<String>,
    fun_ty: Rc<Type>,
    caps: Seq<CaptureInfo>,
    entry: Val,
    fast: Val,
    arity: Val,
)
    requires
        !st.cx.gc,
        st.script.len() + 16 <= u64::MAX,
        st.build_closure(own, fun_ty, caps, entry, fast, arity) is Ok,
    ensures
        ({
            let (end, clos) = st.build_closure(own, fun_ty, caps, entry, fast, arity)->Ok_0;
            let begun = closure_begun(st, own, fun_ty, closure_size(caps), entry, fast, arity);
            let block = Val { id: Id::Reg((st.script.len() + 1) as u64), ty: Ty::Ptr };
            &&& begun.store_captures(block, caps, 0) == Ok::<St, CodegenError>(end)
            &&& clos == Val { id: Id::Reg((st.script.len() + 2) as u64), ty: Ty::I64 }
        }),
{
    let begun = closure_begun(st, own, fun_ty, closure_size(caps), entry, fast, arity);
    let block = Val { id: Id::Reg((st.script.len() + 1) as u64), ty: Ty::Ptr };
    let (s1, b) = st.arg(constant(closure_size(caps))).call("locus_alloc", Ty::Ptr, "alloc");
    assert(b == block);
    let (s2, c) = s1.convert(Conv::PtrToInt, b, Ty::I64, "clos");
    let s3 = match own {
        Some(name) => s2.bind(name, c, fun_ty, ValueLayout::scalar_cell_layout()),
        None => s2,
    };
    let (s4, p0) = s3.gep(Ty::I64, block, constant(0), "fn.slot");
    let s5 = s4.store(p0, entry);
    let (s6, p1) = s5.gep(Ty::I64, block, constant(1), "fast.slot");
    let s7 = s6.store(p1, fast);
    let (s8, p2) = s7.gep(Ty::I64, block, constant(2), "fastarity.slot");
    let s9 = s8.store(p2, arity);
    assert(s9 == begun);
}

/// The cells of a closure at `at` hold its entries and the words of what it captured,
/// and memory outside it is as it was. A function that names itself captured its own
/// closure.
pub open spec fn holds_closure(
    st: St,
    m: Machine,
    own: Option<String>,
    caps: Seq<CaptureInfo>,
    entry: Val,
    fast: Val,
    arity: Val,
    at: u64,
    mem: Map<u64, u64>,
) -> bool {
    &&& mem[at] == m.value(entry)
    &&& mem[(at + 8) as u64] == m.value(fast)
    &&& mem[(at + 16) as u64] == m.value(arity)
    &&& forall|i: int|
        0 <= i < caps.len() ==> mem[word(at + (#[trigger] caps[i]).raw_slot * 8)] == if own
            matches Some(name) && name@ == caps[i].name@ {
            at
        } else {
            word_in_scope(st, m, caps[i].name@)
        }
    &&& forall|x: u64|
        x < at || x >= at + (RESERVED + caps.len()) * 8 ==> #[trigger] mem[x] == m.mem[x]
}

/// The machine once room was found for a closure, and its entries were stored.
pub open spec fn begun_machine(m: Machine, n: int, at: u64, entry: u64, fast: u64, arity: u64) -> Machine {
    let m1 = m.back(n + 1, at, m.store());
    let m3 = m1.set(n + 2, at).set(n + 3, at);
    let m4 = Machine { mem: m3.mem.insert(at, entry), ..m3 };
    let m5 = m4.set(n + 5, (at + 8) as u64);
    let m6 = Machine { mem: m5.mem.insert((at + 8) as u64, fast), ..m5 };
    let m7 = m6.set(n + 7, (at + 16) as u64);
    Machine { mem: m7.mem.insert((at + 16) as u64, arity), ..m7 }
}

proof fn lemma_begun_runs(
    st: St,
    own: Option<String>,
    fun_ty: Rc<Type>,
    size: u64,
    entry: Val,
    fast: Val,
    arity: Val,
    script: Seq<Cmd>,
    m: Machine,
    at: u64,
)
    requires
        ready_or_func(st, entry),
        ready_or_func(st, fast),
        ready_or_func(st, arity),
        st.script.len() + 64 <= u64::MAX,
        extends(script, closure_begun(st, own, fun_ty, size, entry, fast, arity).script),
        m.args.len() == 0,
        at == (m.room)(size, m.store()),
        at + RESERVED * 8 <= 0x1_0000_0000_0000_0000,
    ensures
        run(script, st.script.len() as int, m) == run(
            script,
            st.script.len() as int + 9,
            begun_machine(
                m,
                st.script.len() as int,
                at,
                m.value(entry),
                m.value(fast),
                m.value(arity),
            ),
        ),
        closure_begun(st, own, fun_ty, size, entry, fast, arity).script.len() == st.script.len() + 9,
        extends(
            closure_begun(st, own, fun_ty, size, entry, fast, arity).script,
            st.script,
        ),
{
    let n = st.script.len() as int;
    let begun = closure_begun(st, own, fun_ty, size, entry, fast, arity);
    assert(begun.script.len() == n + 9);
    assert(script[n] == begun.script[n] && script[n + 1] == begun.script[n + 1] && script[n + 2]
        == begun.script[n + 2]);
    assert(script[n + 3] == begun.script[n + 3] && script[n + 4] == begun.script[n + 4] && script[n + 5]
        == begun.script[n + 5]);
    assert(script[n + 6] == begun.script[n + 6] && script[n + 7] == begun.script[n + 7] && script[n + 8]
        == begun.script[n + 8]);
    reveal_strlit("locus_alloc");
    reveal_strlit("llvm.trap");
    assert("locus_alloc"@[1] != "llvm.trap"@[1]);
    let m0 = Machine { args: m.args.push(size), ..m };
    assert(m0.args =~= seq![size]);
    let m1 = m0.back(n + 1, at, m.store());
    assert(m1 == m.back(n + 1, at, m.store()));
    let m2 = m1.set(n + 2, at);
    assert(run(script, n, m) == run(script, n + 1, m0));
    assert(run(script, n + 1, m0) == run(script, n + 2, m1));
    assert(run(script, n + 2, m1) == run(script, n + 3, m2));
    assert(word(at + 0) == at && word(at + 1 * 8) == at + 8 && word(at + 2 * 8) == at + 16);
    let m3 = m2.set(n + 3, at);
    let m4 = Machine { mem: m3.mem.insert(at, m.value(entry)), ..m3 };
    assert(run(script, n + 3, m2) == run(script, n + 4, m3));
    assert(m3.value(entry) == m.value(entry));
    assert(run(script, n + 4, m3) == run(script, n + 5, m4));
    let m5 = m4.set(n + 5, (at + 8) as u64);
    let m6 = Machine { mem: m5.mem.insert((at + 8) as u64, m.value(fast)), ..m5 };
    assert(run(script, n + 5, m4) == run(script, n + 6, m5));
    assert(m5.value(fast) == m.value(fast));
    assert(run(script, n + 6, m5) == run(script, n + 7, m6));
    let m7 = m6.set(n + 7, (at + 16) as u64);
    let m8 = Machine { mem: m7.mem.insert((at + 16) as u64, m.value(arity)), ..m7 };
    assert(run(script, n + 7, m6) == run(script, n + 8, m7));
    assert(m7.value(arity) == m.value(arity));
    assert(run(script, n + 8, m7) == run(script, n + 9, m8));
}

/// What stands in a closure once it is filled.
proof fn lemma_closure_filled(
    st: St,
    own: Option<String>,
    fun_ty: Rc<Type>,
    caps: Seq<CaptureInfo>,
    entry: Val,
    fast: Val,
    arity: Val,
    m: Machine,
    at: u64,
    begun: St,
    m8: Machine,
)
    requires
        in_a_row(caps),
        env_ready(st),
        st.script.len() + 64 <= u64::MAX,
        at + (RESERVED + caps.len()) * 8 <= 0x1_0000_0000_0000_0000,
        begun == closure_begun(st, own, fun_ty, closure_size(caps), entry, fast, arity),
        m8 == begun_machine(
            m,
            st.script.len() as int,
            at,
            m.value(entry),
            m.value(fast),
            m.value(arity),
        ),
        forall|i: int|
            0 <= i < caps.len() ==> begun.cx.env.get((#[trigger] caps[i]).name@) is Some,
    ensures
        holds_closure(
            st,
            m,
            own,
            caps,
            entry,
            fast,
            arity,
            at,
            filled(begun, m8, caps, caps.len(), at, m8.mem),
        ),
{
    let n = st.script.len() as int;
    let mem = filled(begun, m8, caps, caps.len(), at, m8.mem);
    lemma_filled(begun, m8, caps, caps.len(), at, m8.mem, at);
    lemma_filled(begun, m8, caps, caps.len(), at, m8.mem, (at + 8) as u64);
    lemma_filled(begun, m8, caps, caps.len(), at, m8.mem, (at + 16) as u64);
    assert forall|i: int| 0 <= i < caps.len() implies mem[word(at + (#[trigger] caps[i]).raw_slot * 8)] == if own
        matches Some(name) && name@ == caps[i].name@ {
        at
    } else {
        word_in_scope(st, m, caps[i].name@)
    } by {
        let x = (at + (RESERVED + i) * 8) as u64;
        assert(word(at + caps[i].raw_slot * 8) == x);
        lemma_filled(begun, m8, caps, caps.len(), at, m8.mem, x);
        let name = caps[i].name@;
        assert(begun.cx.env.get(name) is Some);
        if !(own matches Some(own) && own@ == name) {
            assert(begun.cx.env.get(name) == st.cx.env.get(name));
            assert(ready(st, in_scope(st, name)));
            assert(m8.value(in_scope(st, name)) == m.value(in_scope(st, name)));
        } else {
            assert(in_scope(begun, name) == Val { id: Id::Reg((n + 2) as u64), ty: Ty::I64 });
        }
    }
    assert forall|x: u64| x < at || x >= at + (RESERVED + caps.len()) * 8 implies #[trigger] mem[x]
        == m.mem[x] by {
        lemma_filled(begun, m8, caps, caps.len(), at, m8.mem, x);
    }
}

/// Building a closure of integers outside the managed heap finds room for it and
/// stores there its entries, its arity and its captures, from which the functions
/// lifted from its lambda then read them.
pub proof fn a_closure_holds_what_it_captured(
    st: St,
    own: Option<String>,
    fun_ty: Rc<Type>,
    caps: Seq<CaptureInfo>,
    entry: Val,
    fast: Val,
    arity: Val,
    script: Seq<Cmd>,
    m: Machine,
) -> (after: Machine)
    requires
        !st.cx.gc,
        packed(caps),
        forall|k: int| 0 <= k < caps.len() ==> plain_capture(#[trigger] caps[k]),
        cells_in_scope(closure_begun(st, own, fun_ty, closure_size(caps), entry, fast, arity), caps),
        env_ready(st),
        ready_or_func(st, entry),
        ready_or_func(st, fast),
        ready_or_func(st, arity),
        st.build_closure(own, fun_ty, caps, entry, fast, arity) is Ok,
        st.script.len() + 64 <= u64::MAX,
        countable(st.build_closure(own, fun_ty, caps, entry, fast, arity)->Ok_0.0),
        extends(script, st.build_closure(own, fun_ty, caps, entry, fast, arity)->Ok_0.0.script),
        m.args.len() == 0,
        (m.room)(closure_size(caps), m.store()) + (RESERVED + caps.len()) * 8
            <= 0x1_0000_0000_0000_0000,
    ensures
        ({
            let (end, clos) = st.build_closure(own, fun_ty, caps, entry, fast, arity)->Ok_0;
            let at = (m.room)(closure_size(caps), m.store());
            &&& run(script, st.script.len() as int, m) == run(script, end.script.len() as int, after)
            &&& after.value(clos) == at
            &&& holds_closure(st, m, own, caps, entry, fast, arity, at, after.mem)
            &&& after.objects == m.objects
            &&& goes_on(m, after, st.script.len() as int)
            &&& takes_up(at, (RESERVED + caps.len()) as nat, m.mem, after.mem)
        }),
{
    let end = st.build_closure(own, fun_ty, caps, entry, fast, arity)->Ok_0.0;
    lemma_of_closure(st, own, fun_ty, caps, entry, fast, arity);
    lemma_closure_runs(st, own, fun_ty, caps, entry, fast, arity, end, script, m)
}

proof fn lemma_closure_runs(
    st: St,
    own: Option<String>,
    fun_ty: Rc<Type>,
    caps: Seq<CaptureInfo>,
    entry: Val,
    fast: Val,
    arity: Val,
    end: St,
    script: Seq<Cmd>,
    m: Machine,
) -> (after: Machine)
    requires
        !st.cx.gc,
        packed(caps),
        forall|k: int| 0 <= k < caps.len() ==> plain_capture(#[trigger] caps[k]),
        cells_in_scope(closure_begun(st, own, fun_ty, closure_size(caps), entry, fast, arity), caps),
        env_ready(st),
        ready_or_func(st, entry),
        ready_or_func(st, fast),
        ready_or_func(st, arity),
        st.script.len() + 64 <= u64::MAX,
        closure_begun(st, own, fun_ty, closure_size(caps), entry, fast, arity).store_captures(
            Val { id: Id::Reg((st.script.len() + 1) as u64), ty: Ty::Ptr },
            caps,
            0,
        ) == Ok::<St, CodegenError>(end),
        countable(end),
        extends(script, end.script),
        m.args.len() == 0,
        (m.room)(closure_size(caps), m.store()) + (RESERVED + caps.len()) * 8
            <= 0x1_0000_0000_0000_0000,
    ensures
        ({
            let at = (m.room)(closure_size(caps), m.store());
            &&& run(script, st.script.len() as int, m) == run(script, end.script.len() as int, after)
            &&& after.regs[(st.script.len() + 2) as u64] == at
            &&& holds_closure(st, m, own, caps, entry, fast, arity, at, after.mem)
            &&& after.objects == m.objects
            &&& goes_on(m, after, st.script.len() as int)
            &&& takes_up(at, (RESERVED + caps.len()) as nat, m.mem, after.mem)
        }),
{
    let n = st.script.len() as int;
    let size = closure_size(caps);
    let begun = closure_begun(st, own, fun_ty, size, entry, fast, arity);
    let block = Val { id: Id::Reg((n + 1) as u64), ty: Ty::Ptr };
    let at = (m.room)(size, m.store());
    lemma_row(caps, caps.len());
    assert forall|i: int| 0 <= i < caps.len() implies (#[trigger] caps[i]).raw_slot == RESERVED + i by {
        lemma_row(caps, i as nat);
    }
    lemma_store_len(begun, block, caps, 0);
    lemma_extends(begun.script, end.script, script);
    lemma_begun_runs(st, own, fun_ty, size, entry, fast, arity, script, m, at);
    let m8 = begun_machine(m, n, at, m.value(entry), m.value(fast), m.value(arity));
    assert(env_ready(begun)) by {
        assert forall|x: Seq<char>| #[trigger] begun.cx.env.get(x) matches Some(e) ==> ready(begun, e.value) by {
            if !(own matches Some(name) && name@ == x) {
                assert(begun.cx.env.get(x) == st.cx.env.get(x));
            }
        }
    }
    assert(goes_on(m8, m8, n + 9));
    assert(m8.value(block) == at);
    let after = lemma_store_runs(begun, begun, block, caps, 0, script, m8, m8);
    assert(goes_on(m, after, n)) by {
        assert forall|i: u64| i < n implies after.regs[i] == #[trigger] m.regs[i] by {
            assert(m8.regs[i] == m.regs[i]);
        }
    }
    assert(after.regs[(n + 2) as u64] == m8.regs[(n + 2) as u64]);
    assert forall|i: int| 0 <= i < caps.len() implies begun.cx.env.get((#[trigger] caps[i]).name@) is Some by {
        lemma_in_begun(begun, block, caps, i);
    }
    lemma_closure_filled(st, own, fun_ty, caps, entry, fast, arity, m, at, begun, m8);
    lemma_takes_up(begun, caps, at, m, n, m.value(entry), m.value(fast), m.value(arity));
    after
}

/// An operand that has its value, or the address of a function.
pub open spec fn ready_or_func(st: St, v: Val) -> bool {
    ready(st, v) || v.id is Func
}

proof fn lemma_in_begun(st: St, clos: Val, caps: Seq<CaptureInfo>, i: int)
    requires
        !st.cx.gc,
        0 <= i < caps.len(),
        forall|k: int| 0 <= k < caps.len() ==> plain_capture(#[trigger] caps[k]),
        cells_in_scope(st, caps),
        st.store_captures(clos, caps, 0) is Ok,
    ensures
        st.cx.env.get(caps[i].name@) is Some,
{
    lemma_in_scope(st, clos, caps, 0, i);
}

proof fn lemma_in_scope(st: St, clos: Val, caps: Seq<CaptureInfo>, k: nat, i: int)
    requires
        !st.cx.gc,
        k <= i < caps.len(),
        forall|k: int| 0 <= k < caps.len() ==> plain_capture(#[trigger] caps[k]),
        cells_in_scope(st, caps),
        st.store_captures(clos, caps, k) is Ok,
    ensures
        st.cx.env.get(caps[i].name@) is Some,
    decreases i - k,
{
    let next = st.store_capture(clos, caps[k as int])->Ok_0;
    assert(st.cx.env.get(caps[k as int].name@) matches Some(e) ==> e.value.ty is I64);
    lemma_store_capture(st, clos, caps[k as int]);
    if k < i {
        assert(cells_in_scope(next, caps));
        lemma_in_scope(next, clos, caps, k + 1, i);
    }
}

/// The variables with the first `n` captures: each has the word that it had where the
/// closure at `at` was built.
pub open spec fn scoped(
    st: St,
    m: Machine,
    own: Option<String>,
    caps: Seq<CaptureInfo>,
    n: nat,
    at: u64,
    vars: Vars,
) -> Vars
    decreases n,
{
    if n == 0 {
        vars
    } else {
        scoped(st, m, own, caps, (n - 1) as nat, at, vars).insert(
            caps[n - 1].name@,
            if own matches Some(name) && name@ == caps[n - 1].name@ {
                at
            } else {
                word_in_scope(st, m, caps[n - 1].name@)
            },
        )
    }
}

proof fn lemma_scoped(
    st: St,
    m: Machine,
    own: Option<String>,
    caps: Seq<CaptureInfo>,
    entry: Val,
    fast: Val,
    arity: Val,
    n: nat,
    at: u64,
    mem: Map<u64, u64>,
    vars: Vars,
)
    requires
        holds_closure(st, m, own, caps, entry, fast, arity, at, mem),
        n <= caps.len(),
    ensures
        captured(caps, n, at, mem, vars) == scoped(st, m, own, caps, n, at, vars),
    decreases n,
{
    if n > 0 {
        lemma_scoped(st, m, own, caps, entry, fast, arity, (n - 1) as nat, at, mem, vars);
        assert(mem[word(at + caps[n - 1].raw_slot * 8)] == if own matches Some(name) && name@
            == caps[n - 1].name@ {
            at
        } else {
            word_in_scope(st, m, caps[n - 1].name@)
        });
    }
}

/// A closure of a lambda of integers, applied to a word, answers what the lambda's body
/// means where its parameter has that word and its captures have the words that they
/// had where the closure was built. Here `built` and `machine` are the state and
/// the machine that built it, and `s` is what is stored when it is applied.
pub proof fn a_built_closure_applied_means_its_lambda(
    st: St,
    fuel: nat,
    lam: Comp,
    caps: Seq<CaptureInfo>,
    turns: nat,
    script: Seq<Cmd>,
    code: Code,
    room: Room,
    built: St,
    machine: Machine,
    entry: Val,
    fast: Val,
    arity: Val,
    clos: u64,
    arg: u64,
    s: Store,
)
    requires
        !st.cx.gc,
        own_blocks(st.script, 0, st.script.len() as int),
        lam is Lam,
        plain_ir(lam_body(lam), false),
        forall|k: int| 0 <= k < caps.len() ==> plain_capture(#[trigger] caps[k]),
        lifted(st, fuel, lam, caps) is Ok,
        countable(lifted(st, fuel, lam, caps)->Ok_0.0),
        extends(script, lifted(st, fuel, lam, caps)->Ok_0.0.script),
        apart(
            script,
            st.script.len() as int,
            lifted(st, fuel, lam, caps)->Ok_0.0.script.len() - 1,
        ),
        of_script(code, room, script),
        holds_closure(built, machine, None, caps, entry, fast, arity, clos, s.mem),
        machine.value(entry) == lifted(st, fuel, lam, caps)->Ok_0.1,
    ensures
        means(
            applied(false, code, clos, arg, s),
            ir_meaning(
                lam_body(lam),
                scoped(
                    built,
                    machine,
                    None,
                    caps,
                    caps.len(),
                    clos,
                    Map::empty().insert(lam_param(lam).name@, arg),
                ),
                turns,
            ),
            s,
        ),
{
    assert(word(clos + 0) == clos);
    lemma_scoped(
        built,
        machine,
        None,
        caps,
        entry,
        fast,
        arity,
        caps.len(),
        clos,
        s.mem,
        Map::empty().insert(lam_param(lam).name@, arg),
    );
    a_lambda_applied_means_its_body(st, fuel, lam, caps, turns, script, code, room, clos, arg, s);
}

} // verus!
