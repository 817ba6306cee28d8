//! What is proved of programs that build functions, call them and themselves, and write
//! to mutable locals: their code computes what they mean.
use crate::analysis::performs_gc;
use crate::applying::{
    a_saturated_call_goes_by_arity, answers_so, applied, chained, goes_on, lemma_apply_len,
    lemma_apply_one, lemma_goes_on, picked, slot_of, words_of,
};
use crate::blocks::{all_params, calls_itself, chain_body, names_itself, sole_lambda, Param, Tail};
use crate::closures::env_ty;
use crate::currying::{env_plain, lemma_bind_plain, plain_param, Closed};
use crate::emit::{export, program, LibExport};
use crate::error::CodegenError;
use crate::evaluation::{
    applies, atom_value, atom_values, bind_count, call_args, cell_accumulator, cell_call, closes,
    closure_bytes, evaluate, evaluate_block, evaluate_bound, evaluate_loop, evaluate_rest,
    evaluate_steps, leaves, no_text, seen_with, spoken, spoken_block, spoken_rest, var_names,
    with_values, Closure, Ends, Env, Value, World,
};
use crate::ir::{target, Comp, Ir, LoopVar, Row, Type, ValueLayout};
use crate::lambdas::{begins, called, of_script};
use crate::layout::{CaptureInfo, LoopVarStorage};
use crate::meaning::{
    edge, extends, flag, keeps, opened, ready, run, runs, word, Answer, Code, Machine, Outcome,
    Room, Store,
};
use crate::programs::{vars_with, with_words, Meant, Names, Vars};
use crate::running::{
    accumulated, apart, branched, followed, if_around, leads_in, lemma_back_leads, lemma_bind_cells,
    lemma_cell_params, lemma_edge_at, lemma_edges_run, lemma_if_around, lemma_if_enter,
    lemma_if_leave, lemma_leads, lemma_leads_to_trap, lemma_loop_again, lemma_loop_apart,
    lemma_loop_back, lemma_loop_inside, lemma_loop_start, lemma_loop_tested, lemma_phis_run,
    lemma_run_leads, lemma_seek_at, lemma_seek_none, models, param_words, traps_in, ENTRY,
};
use crate::shape::{
    countable, edges_laid, env_ready, heads_laid, if_head, if_turn, laid_in, lemma_atom_ready,
    lemma_extends, lemma_head, lemma_if_grown, lemma_if_laid, lemma_loop_around, lemma_loop_len,
    lemma_of_if, lemma_of_ir, lemma_of_steps, lemma_opened, lemma_turn, loop_around, loop_opened,
    of_comp, of_ir, of_steps, own_blocks, phi_at, settled, LoopParts,
};
use crate::spreading::{
    fit, headed_fun, lemma_block_woven, lemma_bound_woven, lemma_branch_fit, lemma_closing_woven,
    lemma_comp_woven, lemma_fun_woven, lemma_loop_woven, lemma_rest_woven, lemma_second_fit,
    lemma_steps_woven, lemma_tail_rest_woven, lemma_tail_woven, loop_woven, placed_fun, slots_ready,
    tail_woven,
};
use crate::standing::{
    captured_word, code_of, does, followed_by, in_force, kept, lemma_atom_stands, lemma_bin_does,
    lemma_closing_does, lemma_init_does, lemma_kept, lemma_kept_self, lemma_less, lemma_load_does,
    lemma_slots_on, lemma_stands_on, lemma_store_does, lemma_vars_on, lemma_words_in, of_itself,
    running, slot_at, slots_hold, spacious, stands_at, stands_for, vars_hold, words_in, Did, Held,
};
use crate::state::St;
use crate::tails::{
    body_laid, captured, fed_before, headed, lam_body, lam_param, lemma_edges_opened, lemma_feed,
    lemma_headed, lemma_loop_entered, lemma_prologue_runs, lemma_tail_branch, loop_entered,
    names_of, of_tail, of_tail_comp, passed, phis_hold, plain_capture, prologue, tail_branch,
    tail_turn,
};
use crate::target::{constant, Cmd, FuncName, Id, IntPred, Title, Ty, Val};
use crate::weaving::{
    behind_fun, binds_one, caps_fit, closing, fun_parts, lemma_again, lemma_app_is, lemma_block_is,
    lemma_block_sized, lemma_bound_sized, lemma_call_is, lemma_chain, lemma_closing_sized,
    lemma_comp_sized, lemma_fun_sized, lemma_lam_is, lemma_lifting_is, lemma_loop_apt,
    lemma_loop_parts, lemma_own_name, lemma_rest_is, lemma_rest_sized, lemma_slots_then,
    lemma_speeding_is, lemma_spoken_step, lemma_steps_sized, lemma_tail_comp_is,
    lemma_tail_comp_sized, lemma_tail_is, lemma_tail_rest_is, lemma_tail_rest_sized,
    lemma_tail_sized, of_bound, of_rest, of_tail_rest, own_fits, slots_kept, spoken_lam, vals_of,
    FunCode,
};
use std::rc::Rc;
use vstd::prelude::*;

verus! {

// ── arguments ────────────────────────────────────────────────────────────
proof fn lemma_values_dom(names: Seq<Seq<char>>, vals: Seq<Value>, n: nat, env: Env)
    requires
        n <= names.len(),
    ensures
        forall|x: Seq<char>| #[trigger]
            with_values(names, vals, n, env).dom().contains(x) == (env.dom().contains(x) || (exists|
                k: int,
            |
                0 <= k < n && names[k] == x)),
    decreases n,
{
    if n > 0 {
        lemma_values_dom(names, vals, (n - 1) as nat, env);
        let before = with_values(names, vals, (n - 1) as nat, env);
        let after = with_values(names, vals, n, env);
        assert forall|x: Seq<char>| #[trigger] after.dom().contains(x) == (env.dom().contains(x) || (exists|
            k: int,
        |
            0 <= k < n && names[k] == x)) by {
            assert(before.dom().contains(x) == (env.dom().contains(x) || (exists|k: int|
                0 <= k < n - 1 && names[k] == x)));
            if names[n - 1] == x {
                assert(after.dom().contains(x));
            } else if after.dom().contains(x) {
                assert(before.dom().contains(x));
            }
        }
    }
}

/// A name stands for the last argument that was passed under it.
proof fn lemma_passed_value(
    names: Seq<Seq<char>>,
    vals: Seq<Value>,
    words: Seq<u64>,
    n: nat,
    env: Env,
    vars: Vars,
    x: Seq<char>,
) -> (k: int)
    requires
        n <= names.len(),
        names.len() == vals.len() == words.len(),
    ensures
        (exists|j: int| 0 <= j < n && names[j] == x) ==> {
            &&& 0 <= k < n
            &&& with_values(names, vals, n, env)[x] == vals[k]
            &&& with_words(names, words, n, vars)[x] == words[k]
        },
        !(exists|j: int| 0 <= j < n && names[j] == x) ==> {
            &&& with_values(names, vals, n, env)[x] == env[x]
            &&& with_words(names, words, n, vars)[x] == vars[x]
        },
    decreases n,
{
    if n == 0 {
        0
    } else {
        let k = lemma_passed_value(names, vals, words, (n - 1) as nat, env, vars, x);
        if names[n - 1] == x {
            assert(0 <= n - 1 < n && names[n - 1] == x);
            n - 1
        } else {
            assert((exists|j: int| 0 <= j < n && names[j] == x) ==> (exists|j: int|
                0 <= j < n - 1 && names[j] == x));
            k
        }
    }
}

proof fn lemma_first_value(first: Seq<char>, rest: Seq<Seq<char>>, val: Value, vals: Seq<Value>, n: nat, env: Env)
    requires
        n <= rest.len(),
        rest.len() == vals.len(),
    ensures
        with_values(seq![first] + rest, seq![val] + vals, n + 1, env) == with_values(
            rest,
            vals,
            n,
            env.insert(first, val),
        ),
    decreases n,
{
    let names = seq![first] + rest;
    let all = seq![val] + vals;
    if n == 0 {
        assert(with_values(names, all, 1, env) == with_values(names, all, 0, env).insert(
            names[0],
            all[0],
        ));
    } else {
        lemma_first_value(first, rest, val, vals, (n - 1) as nat, env);
        assert(names[n as int] == rest[n - 1]);
        assert(all[n as int] == vals[n - 1]);
    }
}

/// Two ends that come to the same outside a function.
pub open spec fn ends_alike(a: Ends, b: Ends) -> bool {
    match (a, b) {
        (Ends::Value(x, w), Ends::Value(y, u)) => x == y && w.left == u.left,
        (Ends::Trap, Ends::Trap) => true,
        (Ends::Open, _) => true,
        _ => false,
    }
}

/// A function that is applied to all its arguments ends as its innermost body does.
proof fn lemma_applies_chain(c: Closure, vals: Seq<Value>, w: World, turns: nat, seen: Names) -> (left: nat)
    requires
        spoken_lam(c.lam, seen),
        vals.len() == all_params(c.lam).len(),
    ensures
        applies(Value::Fun(c), vals, w, turns) is Open || {
            &&& vals.len() <= turns
            &&& left <= w.left
            &&& ends_alike(
                applies(Value::Fun(c), vals, w, turns),
                evaluate_block(
                    chain_body(lam_body(c.lam)),
                    with_values(names_of(all_params(c.lam)), vals, vals.len(), c.around()),
                    World { cells: Map::empty(), left },
                    (turns - vals.len()) as nat,
                ),
            )
        },
    decreases c.lam,
{
    let body = lam_body(c.lam);
    let ends = applies(Value::Fun(c), vals, w, turns);
    lemma_chain(c.lam, seen);
    let names = names_of(all_params(c.lam));
    let first = lam_param(c.lam).name@;
    if turns == 0 {
        0
    } else {
        let inside = c.inside(vals[0]);
        let block = evaluate_block(body, inside, w.called(), (turns - 1) as nat);
        match sole_lambda(body) {
            None => {
                assert(names =~= seq![first]);
                reveal_with_fuel(with_values, 2);
                reveal_with_fuel(applies, 2);
                assert(with_values(names, vals, 1, c.around()) == inside);
                assert(w.called() == World { cells: Map::empty(), left: w.left });
                w.left
            },
            Some(inner_rc) => {
                let inner = target(inner_rc);
                let next = Closure { own: None, lam: inner, env: inside };
                let rest = vals.drop_first();
                assert(block == closes(None, inner, inside, w.called())) by {
                    assert(evaluate(inner, inside, w.called(), (turns - 1) as nat) == closes(
                        None,
                        inner,
                        inside,
                        w.called(),
                    ));
                    match body {
                        Ir::Block { binds, comp, .. } => {
                            assert(evaluate_rest(body, 0, inside, w.called(), (turns - 1) as nat)
                                == evaluate(target(comp), inside, w.called(), (turns - 1) as nat));
                        },
                        _ => {},
                    }
                }
                if w.left < closure_bytes(inner) {
                    0
                } else {
                    let after = World {
                        cells: w.cells,
                        left: w.called().less(closure_bytes(inner)).left,
                    };
                    assert(ends == applies(Value::Fun(next), rest, after, (turns - 1) as nat));
                    let left = lemma_applies_chain(next, rest, after, (turns - 1) as nat, seen);
                    let inner_names = names_of(all_params(inner));
                    assert(names =~= seq![first] + inner_names);
                    assert(vals =~= seq![vals[0]] + rest);
                    lemma_first_value(first, inner_names, vals[0], rest, rest.len(), c.around());
                    assert(next.around() == inside);
                    left
                }
            },
        }
    }
}

// ── what functions answer ────────────────────────────────────────────────
/// What code that returns led to.
pub struct Back {
    pub j: nat,
    pub w: u64,
    pub s: Store,
    pub h: Held,
}

/// The code returns a word that stands for the value it ends in, or traps.
pub open spec fn comes(script: Seq<Cmd>, n: int, m: Machine, h: Held, ends: Ends, b: Back) -> bool {
    match ends {
        Ends::Value(v, w) => {
            &&& forall|t: nat|
                t >= b.j ==> #[trigger] runs(script, n, m, t) == Outcome::Returned(b.w, b.s)
            &&& stands_for(v, b.w, b.s.mem, b.h.closures, script)
            &&& kept(m.store(), h, b.s, b.h)
            &&& spacious(m.room, b.s, w.left)
        },
        Ends::Trap => traps_in(script, n, m, b.j),
        Ends::Open => true,
    }
}

proof fn lemma_comes_alike(script: Seq<Cmd>, n: int, m: Machine, h: Held, a: Ends, b: Ends, r: Back)
    requires
        comes(script, n, m, h, b, r),
        ends_alike(a, b),
    ensures
        comes(script, n, m, h, a, r),
{
}

/// What comes before code that returns goes first.
proof fn lemma_comes_after(
    script: Seq<Cmd>,
    n: int,
    m: Machine,
    h: Held,
    k: int,
    mid: Machine,
    i: nat,
    now: Held,
    ends: Ends,
    r: Back,
) -> (b: Back)
    requires
        leads_in(script, n, m, k, mid, i),
        kept(m.store(), h, mid.store(), now),
        mid.room == m.room,
        comes(script, k, mid, now, ends, r),
    ensures
        comes(script, n, m, h, ends, b),
        b == (Back { j: i + r.j, ..r }),
{
    let b = Back { j: i + r.j, ..r };
    match ends {
        Ends::Value(v, w) => {
            lemma_kept(m.store(), h, mid.store(), now, r.s, r.h);
            assert forall|t: nat| t >= b.j implies #[trigger] runs(script, n, m, t)
                == Outcome::Returned(b.w, b.s) by {
                assert(runs(script, n, m, t) == runs(script, k, mid, (t - i) as nat));
            }
        },
        Ends::Trap => lemma_leads_to_trap(script, n, m, k, mid, i, r.j),
        Ends::Open => {},
    }
    b
}

/// A call answers a word that stands for the value it ends in, or traps; it leaves what
/// was in use as it was.
pub open spec fn answered(
    answer: Answer,
    ends: Ends,
    s: Store,
    h: Held,
    now: Held,
    room: Room,
    script: Seq<Cmd>,
) -> bool {
    match ends {
        Ends::Value(v, w) => {
            &&& answer is Word
            &&& stands_for(v, answer->Word_0, answer->Word_1.mem, now.closures, script)
            &&& kept(s, h.called(), answer->Word_1, now)
            &&& spacious(room, answer->Word_1, w.left)
        },
        Ends::Trap => answer is Trap,
        Ends::Open => true,
    }
}

proof fn lemma_kept_calls(a: Store, ha: Held, b: Store, hb: Held, c: Store, hc: Held)
    requires
        kept(a, ha.called(), b, hb),
        kept(b, hb.called(), c, hc),
    ensures
        kept(a, ha.called(), c, hc),
{
    assert forall|x: u64| #[trigger] a.mem.dom().contains(x) implies {
        &&& c.mem.dom().contains(x)
        &&& c.mem[x] == a.mem[x]
        &&& hc.closures.contains(x) ==> ha.closures.contains(x)
        &&& !hc.slots.contains(x)
    } by {
        assert(b.mem.dom().contains(x));
    }
}

/// Behind a call the slots of the caller are as they were.
proof fn lemma_kept_behind(s: Store, h: Held, next: Store, now: Held)
    requires
        h.sound(s.mem),
        kept(s, h.called(), next, now),
    ensures
        kept(s, h, next, h.behind(now)),
        forall|x: u64| #[trigger] h.slots.contains(x) ==> next.mem[x] == s.mem[x],
{
    assert forall|x: u64| #[trigger] h.slots.contains(x) implies next.mem[x] == s.mem[x]
        && next.mem.dom().contains(x) && !now.closures.contains(x) by {
        assert(s.mem.dom().contains(x));
    }
}

// ── where a function begins ──────────────────────────────────────────────
/// Some capture has this name.
pub open spec fn cap_named(caps: Seq<CaptureInfo>, x: Seq<char>) -> bool {
    exists|k: int| 0 <= k < caps.len() && (#[trigger] caps[k]).name@ == x
}

proof fn lemma_params_names(st: St, func: u64, params: Seq<Param>, tys: Seq<Ty>, i: nat, x: Seq<char>)
    ensures
        st.bind_params(func, params, tys, i).cx.env.get(x) is Some ==> st.cx.env.get(x) is Some
            || names_of(params).contains(x),
    decreases params.len() - i,
{
    if i < params.len() {
        let p = params[i as int];
        let v = Val { id: Id::Param { func, index: (i + 1) as u32 }, ty: tys[i as int] };
        lemma_params_names(st.bind(p.name, v, p.ty, p.layout), func, params, tys, i + 1, x);
        assert(names_of(params)[i as int] == p.name@);
    }
}

proof fn lemma_loads_names(st: St, env: Val, caps: Seq<CaptureInfo>, i: nat, x: Seq<char>)
    requires
        i <= caps.len(),
        !st.cx.gc,
        forall|k: int| 0 <= k < caps.len() ==> plain_capture(#[trigger] caps[k]),
        st.load_captures(env, caps, i) is Ok,
    ensures
        st.load_captures(env, caps, i)->Ok_0.cx.env.get(x) is Some ==> st.cx.env.get(x) is Some
            || cap_named(caps, x),
    decreases caps.len() - i,
{
    if i < caps.len() {
        let cap = caps[i as int];
        let (mid, v) = st.load_capture(env, cap)->Ok_0;
        crate::tails::lemma_load_capture(st, env, cap);
        lemma_loads_names(mid.bind(cap.name, v, cap.ty, cap.layout), env, caps, i + 1, x);
        assert(caps[i as int].name@ == cap.name@);
    }
}

proof fn lemma_start_names(
    st: St,
    name: FuncName,
    ret: Ty,
    params: Seq<Param>,
    tys: Seq<Ty>,
    caps: Seq<CaptureInfo>,
    x: Seq<char>,
)
    requires
        !st.cx.gc,
        tys.len() == params.len(),
        forall|k: int| 0 <= k < caps.len() ==> plain_capture(#[trigger] caps[k]),
        prologue(st, name, ret, params, tys, caps) is Ok,
    ensures
        prologue(st, name, ret, params, tys, caps)->Ok_0.0.cx.env.get(x) is Some ==> names_of(
            params,
        ).contains(x) || cap_named(caps, x),
{
    reveal(prologue);
    let func = st.here();
    let begun = st.begin_func(name, ret, tys);
    let named = st.put(Cmd::Func { name, ret }).put(Cmd::Param { ty: env_ty(false) });
    crate::tails::lemma_put_params(named, tys, tys.len());
    let bound = begun.bind_params(func, params, tys, 0);
    let env = Val { id: Id::Param { func, index: 0 }, ty: env_ty(false) };
    crate::currying::lemma_params_resume(begun, func, params, tys, 0);
    lemma_params_names(begun, func, params, tys, 0, x);
    lemma_loads_names(bound, env, caps, 0, x);
}

proof fn lemma_capture_named(
    caps: Seq<CaptureInfo>,
    n: nat,
    clos: u64,
    mem: Map<u64, u64>,
    base: Vars,
    x: Seq<char>,
) -> (k: int)
    requires
        n <= caps.len(),
    ensures
        (exists|i: int| 0 <= i < n && (#[trigger] caps[i]).name@ == x) ==> 0 <= k < n && caps[k].name@
            == x && captured(caps, n, clos, mem, base)[x] == captured_word(caps[k], clos, mem),
        !(exists|i: int| 0 <= i < n && (#[trigger] caps[i]).name@ == x) ==> captured(
            caps,
            n,
            clos,
            mem,
            base,
        )[x] == base[x],
    decreases n,
{
    if n == 0 {
        0
    } else {
        let k = lemma_capture_named(caps, (n - 1) as nat, clos, mem, base, x);
        if caps[n - 1].name@ == x {
            n - 1
        } else {
            assert((exists|i: int| 0 <= i < n && (#[trigger] caps[i]).name@ == x) ==> (exists|i: int|
                0 <= i < n - 1 && (#[trigger] caps[i]).name@ == x));
            k
        }
    }
}

/// The words of the captures stand for what the function finds around it.
pub open spec fn captures_stand(
    c: Closure,
    caps: Seq<CaptureInfo>,
    clos: u64,
    mem: Map<u64, u64>,
    cells: Set<u64>,
    script: Seq<Cmd>,
) -> bool {
    forall|k: int|
        0 <= k < caps.len() ==> c.around().dom().contains((#[trigger] caps[k]).name@) && stands_for(
            c.around()[caps[k].name@],
            captured_word(caps[k], clos, mem),
            mem,
            cells,
            script,
        )
}

/// The words of values stand for them.
pub open spec fn all_stand(
    vals: Seq<Value>,
    words: Seq<u64>,
    mem: Map<u64, u64>,
    cells: Set<u64>,
    script: Seq<Cmd>,
) -> bool {
    &&& vals.len() == words.len()
    &&& forall|k: int|
        0 <= k < vals.len() ==> stands_for(#[trigger] vals[k], words[k], mem, cells, script)
}

/// What a function captured is in scope where it begins.
pub open spec fn around_holds(
    q: FunCode,
    c: Closure,
    m: Machine,
    mem: Map<u64, u64>,
    cells: Set<u64>,
    script: Seq<Cmd>,
) -> bool {
    forall|x: Seq<char>| #[trigger]
        q.start.cx.env.get(x) matches Some(e) ==> names_of(q.params).contains(x) || (
        c.around().dom().contains(x) && stands_for(
            c.around()[x],
            m.value(e.value),
            mem,
            cells,
            script,
        ))
}

/// A function of a closure, and its code in the script.
pub open spec fn fun_laid(
    st: St,
    fuel: nat,
    c: Closure,
    caps: Seq<CaptureInfo>,
    q: FunCode,
    seen: Names,
    script: Seq<Cmd>,
) -> bool {
    &&& fit(st)
    &&& spoken_lam(c.lam, seen)
    &&& own_fits(c.own, c.lam)
    &&& fun_parts(st, fuel, c.own, caps, q)
    &&& if q.t.uncurried {
        q.params == all_params(c.lam) && q.body == chain_body(lam_body(c.lam))
    } else {
        q.params == seq![lam_param(c.lam)] && q.body == lam_body(c.lam)
    }
    &&& caps_fit(st, c.own, c.lam, caps)
    &&& countable(q.out)
    &&& extends(script, q.out.script)
    &&& apart(script, st.script.len() as int, q.out.script.len() as int)
}

proof fn lemma_fun_facts(
    st: St,
    fuel: nat,
    c: Closure,
    caps: Seq<CaptureInfo>,
    q: FunCode,
    seen: Names,
    script: Seq<Cmd>,
)
    requires
        fun_laid(st, fuel, c, caps, q, seen, script),
    ensures
        spoken_block(q.body, seen, seen),
        forall|k: int| 0 <= k < q.params.len() ==> plain_param(#[trigger] q.params[k]),
        forall|k: int| 0 <= k < caps.len() ==> plain_capture(#[trigger] caps[k]),
        forall|k: int|
            0 <= k < caps.len() ==> !names_of(q.params).contains((#[trigger] caps[k]).name@),
        c.own matches Some(o) ==> !names_of(q.params).contains(o@),
        1 <= q.params.len() < u32::MAX,
{
    lemma_chain(c.lam, seen);
    let all = all_params(c.lam);
    assert(plain_param(all[0]));
    assert forall|x: Seq<char>| !names_of(all).contains(x) implies !names_of(q.params).contains(x) by {
        if names_of(q.params).contains(x) {
            let k = names_of(q.params).index_of(x);
            assert(names_of(q.params)[k] == x);
            assert(names_of(all)[k] == x);
        }
    }
    if let Some(o) = c.own {
        lemma_own_name(c.lam, o@);
    }
}

#[verifier::rlimit(30)]
proof fn lemma_fun_begins(
    st: St,
    fuel: nat,
    c: Closure,
    caps: Seq<CaptureInfo>,
    q: FunCode,
    seen: Names,
    script: Seq<Cmd>,
    clos: u64,
    vals: Seq<Value>,
    words: Seq<u64>,
    s: Store,
    h: Held,
    code: Code,
    room: Room,
) -> (r: (Vars, Machine))
    requires
        fun_laid(st, fuel, c, caps, q, seen, script),
        vals.len() == q.params.len(),
        all_stand(vals, words, s.mem, h.closures, script),
        captures_stand(c, caps, clos, s.mem, h.closures, script),
    ensures
        ({
            let args = seq![clos] + words;
            let m = called(st.here(), args, s, code, room);
            let n = begins(st.here(), args);
            let names = names_of(q.params);
            &&& run(script, n, m) == run(script, q.start.script.len() as int, r.1)
            &&& r.1.store() == s
            &&& r.1.code == code
            &&& r.1.room == room
            &&& r.1.args.len() == 0
            &&& models(q.start, r.1, r.0)
            &&& vars_hold(
                q.start,
                r.1,
                with_values(names, vals, names.len(), c.around()),
                h.called(),
                script,
            )
            &&& around_holds(q, c, r.1, s.mem, h.closures, script)
            &&& forall|j: int|
                #![trigger words[j]]
                0 <= j < words.len() ==> r.1.params[(st.here(), (j + 1) as u32)] == words[j]
            &&& fit(q.start)
            &&& placed_fun(st, q)
        }),
{
    let args = seq![clos] + words;
    let func = st.here();
    let m = called(func, args, s, code, room);
    let n = begins(func, args);
    let names = names_of(q.params);
    lemma_fun_facts(st, fuel, c, caps, q, seen, script);
    lemma_fun_sized(st, fuel, c.own, caps, q, seen);
    lemma_fun_woven(st, fuel, c.own, caps, q, seen, m);
    lemma_extends(q.start.script, q.out.script, script);
    let (vars, mid) = lemma_prologue_runs(st, q.name, q.ret, q.params, q.tys, caps, script, m);
    assert(n == st.script.len() + q.params.len() + 4);
    assert(m.params[(func, 0u32)] == clos);
    let pass = passed(func, q.params.len(), m);
    assert(pass =~= words) by {
        assert forall|j: int| 0 <= j < words.len() implies #[trigger] pass[j] == words[j] by {
            assert(args[j + 1] == words[j]);
        }
    }
    assert(vars == captured(
        caps,
        caps.len(),
        clos,
        s.mem,
        with_words(names, words, names.len(), Map::empty()),
    ));
    let env = with_values(names, vals, names.len(), c.around());
    lemma_values_dom(names, vals, names.len(), c.around());
    assert forall|x: Seq<char>| #[trigger] q.start.cx.env.get(x) is Some implies env.dom().contains(x)
        && stands_for(env[x], vars[x], s.mem, h.closures, script) && (names.contains(x) || (
    c.around().dom().contains(x) && stands_for(
        c.around()[x],
        vars[x],
        s.mem,
        h.closures,
        script,
    ))) by {
        lemma_start_names(st, q.name, q.ret, q.params, q.tys, caps, x);
        let k = lemma_capture_named(
            caps,
            caps.len(),
            clos,
            s.mem,
            with_words(names, words, names.len(), Map::empty()),
            x,
        );
        let j = lemma_passed_value(
            names,
            vals,
            words,
            names.len(),
            c.around(),
            Map::empty(),
            x,
        );
        if cap_named(caps, x) {
            assert(caps[k].name@ == x);
            assert(!names.contains(x));
            assert(!(exists|i: int| 0 <= i < names.len() && names[i] == x));
        } else {
            assert(names.contains(x));
            let i = names.index_of(x);
            assert(0 <= i < names.len() && names[i] == x);
        }
    }
    assert(vars_hold(q.start, mid, env, h.called(), script)) by {
        assert forall|x: Seq<char>| #[trigger]
            q.start.cx.env.get(x) matches Some(e) ==> env.dom().contains(x) && stands_for(
                env[x],
                mid.value(e.value),
                mid.mem,
                h.called().closures,
                script,
            ) by {
            if let Some(e) = q.start.cx.env.get(x) {
                assert(mid.value(e.value) == vars[x]);
            }
        }
    }
    assert(around_holds(q, c, mid, s.mem, h.closures, script)) by {
        assert forall|x: Seq<char>| #[trigger]
            q.start.cx.env.get(x) matches Some(e) ==> names_of(q.params).contains(x) || (
            c.around().dom().contains(x) && stands_for(
                c.around()[x],
                mid.value(e.value),
                s.mem,
                h.closures,
                script,
            )) by {
            if let Some(e) = q.start.cx.env.get(x) {
                assert(mid.value(e.value) == vars[x]);
            }
        }
    }
    assert forall|j: int|
        #![trigger words[j]]
        0 <= j < words.len() implies mid.params[(func, (j + 1) as u32)] == words[j] by {
        assert(mid.params == m.params);
        assert(args[j + 1] == words[j]);
    }
    (vars, mid)
}

// ── loops ────────────────────────────────────────────────────────────────
/// The loop that a function was lowered to, and the machine that came to it.
pub struct Lap {
    pub st: St,
    pub fuel: nat,
    pub c: Closure,
    pub caps: Seq<CaptureInfo>,
    pub q: FunCode,
    pub seen: Names,
    pub script: Seq<Cmd>,
    pub vars: Vars,
    pub m: Machine,
}

impl Lap {
    /// Where the loop begins.
    pub open spec fn start(self) -> int {
        self.q.start.script.len() as int
    }

    /// Where the phis of the parameters lie.
    pub open spec fn base(self) -> int {
        self.start() + 3
    }

    pub open spec fn count(self) -> int {
        self.q.params.len() as int
    }

    /// What the phis start with.
    pub open spec fn seeds(self) -> Seq<Val> {
        Seq::new(
            self.q.params.len(),
            |j: int|
                Val { id: Id::Param { func: self.st.here(), index: (j + 1) as u32 }, ty: self.q.tys[j] },
        )
    }

    /// What the variables in scope in the body stand for.
    pub open spec fn inside(self, vals: Seq<Value>) -> Env {
        with_values(names_of(self.q.params), vals, self.q.params.len(), self.c.around())
    }
}

/// How the loop of a function lies in its script.
pub open spec fn lap_laid(l: Lap) -> bool {
    let k = l.count();
    let base = l.base();
    &&& fun_laid(l.st, l.fuel, l.c, l.caps, l.q, l.seen, l.script)
    &&& l.c.own == Some(l.q.t.own)
    &&& placed_fun(l.st, l.q)
    &&& headed_fun(l.st, l.q)
    &&& l.q.first.script.len() == base + 2 * k
    &&& base + 2 * k + 64 <= u64::MAX
    &&& l.m.args.len() == 0
    &&& models(l.q.start, l.m, l.vars)
    &&& extends(l.script, l.q.first.script)
    &&& l.script[l.start() + 2] == (Cmd::At { block: l.q.t.head })
    &&& forall|i: int| 0 <= i < l.start() + 2 ==> #[trigger] l.script[i] != (Cmd::At { block: l.q.t.head })
    &&& heads_laid(l.script, base, 0, k, l.seeds(), l.q.start.cx.block)
    &&& body_laid(
        loop_entered(l.q.start),
        l.q.first,
        names_of(l.q.params),
        base,
        0,
        l.seeds(),
        l.q.start.cx.block,
    )
    &&& fed_before(l.q.first, base, k)
}

#[verifier::rlimit(30)]
proof fn lemma_lap_laid(l: Lap)
    requires
        fun_laid(l.st, l.fuel, l.c, l.caps, l.q, l.seen, l.script),
        l.c.own is Some,
        l.m.args.len() == 0,
        models(l.q.start, l.m, l.vars),
    ensures
        lap_laid(l),
        l.script[l.start()] is Block,
        l.script[l.start() + 1] == (Cmd::Br { to: l.q.t.head }),
{
    let q = l.q;
    let k = l.count();
    let base = l.base();
    let n = l.start();
    let script = l.script;
    let from = q.start.cx.block;
    lemma_fun_facts(l.st, l.fuel, l.c, l.caps, q, l.seen, script);
    lemma_fun_sized(l.st, l.fuel, l.c.own, l.caps, q, l.seen);
    lemma_fun_woven(l.st, l.fuel, l.c.own, l.caps, q, l.seen, l.m);
    let seeds = lemma_headed(q.start, l.st.here(), q.params, q.tys, q.t.uncurried);
    assert(seeds =~= l.seeds());
    lemma_loop_entered(q.start);
    let head = loop_entered(q.start);
    let first = q.first;
    lemma_extends(first.script, q.out.script, script);
    lemma_extends(head.script, first.script, script);
    lemma_extends(q.start.script, head.script, script);
    assert(script[n] == head.script[n]);
    assert(script[n + 1] == head.script[n + 1]);
    assert(script[n + 2] == head.script[n + 2]);
    assert(heads_laid(script, base, 0, k, seeds, from)) by {
        assert forall|j: int| #![trigger phi_at(base, j)] 0 <= j < k implies script[phi_at(base, j)] is Phi
            && script[phi_at(base, j) + 1] == (Cmd::Incoming {
            phi: phi_at(base, j) as u64,
            val: seeds[j],
            from,
        }) by {
            assert(script[phi_at(base, j)] == first.script[phi_at(base, j)]);
            assert(script[phi_at(base, j) + 1] == first.script[phi_at(base, j) + 1]);
        }
    }
    assert forall|i: int| 0 <= i < n + 2 implies #[trigger] script[i] != (Cmd::At { block: q.t.head }) by {
        if i < n {
            assert(script[i] == q.start.script[i]);
        }
    }
    assert forall|i: int| base <= i < base + 2 * k implies #[trigger] script[i] is Phi || script[i] == (
    Cmd::Incoming {
        phi: (i - (i - base) % 2) as u64,
        val: seeds[(i - base) / 2],
        from,
    }) by {
        let j = (i - base) / 2;
        assert(phi_at(base, j) == base + 2 * j);
        assert(script[phi_at(base, j)] is Phi);
        if (i - base) % 2 == 1 {
            assert(i == phi_at(base, j) + 1);
        } else {
            assert(i == phi_at(base, j));
        }
    }
    assert(fed_before(first, base, k)) by {
        assert forall|i: int| 0 <= i < first.script.len() implies (#[trigger] first.script[i] matches Cmd::Incoming {
            phi,
            from,
            ..
        } ==> (base <= phi < base + 2 * k ==> from < first.script.len() && from != first.cx.block)) by {
            assert(first.script[i] == script[i]);
            if i < n {
                assert(script[i] == q.start.script[i]);
            }
        }
    }
}

proof fn lemma_phis_names(
    st: St,
    func: u64,
    params: Seq<Param>,
    tys: Seq<Ty>,
    from: u64,
    i: nat,
    done: Seq<u64>,
    x: Seq<char>,
)
    ensures
        names_of(params).contains(x) || st.param_phis(func, params, tys, from, i, done).0.cx.env.get(
            x,
        ) == st.cx.env.get(x),
    decreases params.len() - i,
{
    if i < params.len() {
        let p = params[i as int];
        let phi = st.here();
        let (s1, v) = st.phi(Ty::I64, "tail.p");
        let seed = Val { id: Id::Param { func, index: (i + 1) as u32 }, ty: tys[i as int] };
        let s2 = s1.incoming(phi, seed, from);
        let s3 = s2.bind(p.name, v, p.ty, p.layout);
        lemma_phis_names(s3, func, params, tys, from, i + 1, done.push(phi), x);
        assert(names_of(params)[i as int] == p.name@);
    }
}

proof fn lemma_headed_names(
    start: St,
    func: u64,
    params: Seq<Param>,
    tys: Seq<Ty>,
    uncurried: bool,
    x: Seq<char>,
)
    ensures
        names_of(params).contains(x) || headed(start, func, params, tys, uncurried).0.cx.env.get(x)
            == start.cx.env.get(x),
{
    reveal(headed);
    if uncurried || params.len() != 1 {
        lemma_phis_names(
            loop_entered(start),
            func,
            params,
            tys,
            start.cx.block,
            0,
            Seq::empty(),
            x,
        );
    } else {
        assert(names_of(params)[0] == params[0].name@);
    }
}

/// At the head of the loop the variables stand for what was passed and what is around
/// the function.
proof fn lemma_lap_vars(l: Lap, m: Machine, h: Held, vals: Seq<Value>, words: Seq<u64>)
    requires
        lap_laid(l),
        goes_on(l.m, m, l.start()),
        phis_hold(l.base(), l.count(), m, words),
        vals.len() == l.count(),
        all_stand(vals, words, m.mem, h.closures, l.script),
        around_holds(l.q, l.c, l.m, m.mem, h.closures, l.script),
    ensures
        vars_hold(l.q.first, m, l.inside(vals), h, l.script),
{
    let q = l.q;
    let names = names_of(q.params);
    let head = loop_entered(q.start);
    let k = names.len();
    lemma_loop_entered(q.start);
    assert(models(head, m, l.vars)) by {
        assert forall|x: Seq<char>| #[trigger]
            head.cx.env.get(x) matches Some(e) ==> m.value(e.value) == l.vars[x] by {
            if let Some(e) = q.start.cx.env.get(x) {
                assert(ready(q.start, e.value));
                assert(m.value(e.value) == l.m.value(e.value));
            }
        }
    }
    assert(with_words(names, words, 0, l.vars) == l.vars);
    let raw = with_words(names, words, k, l.vars);
    assert(models(q.first, m, raw));
    lemma_values_dom(names, vals, k, l.c.around());
    assert forall|x: Seq<char>| #[trigger]
        q.first.cx.env.get(x) matches Some(e) ==> l.inside(vals).dom().contains(x) && stands_for(
            l.inside(vals)[x],
            m.value(e.value),
            m.mem,
            h.closures,
            l.script,
        ) by {
        if let Some(e) = q.first.cx.env.get(x) {
            let j = lemma_passed_value(names, vals, words, k, l.c.around(), l.vars, x);
            lemma_headed_names(q.start, l.st.here(), q.params, q.tys, q.t.uncurried, x);
            assert(m.value(e.value) == raw[x]);
            if names.contains(x) {
                let i = names.index_of(x);
                assert(0 <= i < names.len() && names[i] == x);
            } else {
                assert(!(exists|i: int| 0 <= i < names.len() && names[i] == x));
                assert(q.start.cx.env.get(x) == q.first.cx.env.get(x));
                assert(ready(q.start, e.value));
            }
        }
    }
}

/// The loop is entered.
proof fn lemma_lap_enters(l: Lap, words: Seq<u64>) -> (after: Machine)
    requires
        lap_laid(l),
        l.script[l.start()] is Block,
        l.script[l.start() + 1] == (Cmd::Br { to: l.q.t.head }),
        words.len() == l.count(),
        forall|j: int|
            #![trigger words[j]]
            0 <= j < words.len() ==> l.m.params[(l.st.here(), (j + 1) as u32)] == words[j],
    ensures
        run(l.script, l.start(), l.m) == run(l.script, l.q.first.script.len() as int, after),
        goes_on(l.m, after, l.start()),
        after.store() == l.m.store(),
        phis_hold(l.base(), l.count(), after, words),
{
    let script = l.script;
    let n = l.start();
    let base = l.base();
    let k = l.count();
    let q = l.q;
    let from = q.start.cx.block;
    let seeds = l.seeds();
    let m1 = l.m.left(from);
    lemma_extends(q.start.script, q.out.script, script);
    lemma_opened(script, q.start.script, n);
    assert(opened(script, n + 1) == from);
    lemma_seek_at(script, n as u64, n + 2, n + 2);
    assert(run(script, n, l.m) == run(script, n + 1, l.m));
    assert(run(script, n + 1, l.m) == run(script, n + 2, m1));
    assert(run(script, n + 2, m1) == run(script, base, m1));
    assert forall|j: int| #![trigger phi_at(base, j)] 0 <= j < k implies edge(
        script,
        phi_at(base, j),
        m1.came,
        phi_at(base, j) + 1,
    ) == Some(seeds[j]) && m1.past(seeds[j]) == words[j] by {
        assert(script[phi_at(base, j) + 1] == (Cmd::Incoming {
            phi: phi_at(base, j) as u64,
            val: seeds[j],
            from,
        }));
        assert(m1.past(seeds[j]) == l.m.params[(l.st.here(), (j + 1) as u32)]);
    }
    let after = lemma_phis_run(script, base, k, seeds, from, seeds, words, 0, m1);
    assert(phi_at(base, 0) == base && phi_at(base, k) == base + 2 * k);
    assert(goes_on(l.m, after, n)) by {
        assert forall|i: u64| i < n implies after.regs[i] == #[trigger] l.m.regs[i] by {
            assert(m1.regs[i] == l.m.regs[i]);
        }
    }
    after
}

/// No block after a position is this one.
pub open spec fn unentered(script: Seq<Cmd>, from: int, block: u64) -> bool {
    forall|i: int| from <= i < script.len() ==> #[trigger] script[i] != (Cmd::At { block })
}

/// Back at the head of the loop, its body is entered with the arguments of the call.
#[verifier::rlimit(30)]
proof fn lemma_lap_round(l: Lap, st: St, t: Tail, vs: Seq<Val>, m: Machine) -> (after: Machine)
    requires
        lap_laid(l),
        t.phis == l.q.t.phis,
        t.head == l.q.t.head,
        settled(st),
        l.base() + 2 * l.count() <= st.script.len(),
        fed_before(st, l.base(), l.count()),
        vs.len() == l.count(),
        countable(st.jump(t, vs)),
        extends(l.script, st.jump(t, vs).script),
        unentered(l.script, st.jump(t, vs).script.len() as int, l.q.t.head),
        goes_on(l.m, m, l.start()),
    ensures
        leads_in(
            l.script,
            st.script.len() as int,
            m,
            l.q.first.script.len() as int,
            after,
            1,
        ),
        goes_on(l.m, after, l.start()),
        after.store() == m.store(),
        phis_hold(l.base(), l.count(), after, words_of(m, vs)),
{
    let n = st.script.len() as int;
    let k = l.count();
    let base = l.base();
    let b = st.cx.block;
    let script = l.script;
    let words = words_of(m, vs);
    let end = st.jump(t, vs);
    let mid = st.feed(t.phis, vs, b, t.phis.len());
    lemma_feed(st, t.phis, vs, b, t.phis.len());
    assert(extends(end.script, mid.script));
    lemma_extends(mid.script, end.script, script);
    lemma_extends(st.script, mid.script, script);
    assert(end.script.len() == n + k + 1);
    assert(script[n + k] == end.script[n + k]);
    assert(edges_laid(script, base, n, k, vs, b)) by {
        assert forall|j: int| #![trigger phi_at(base, j)] 0 <= j < k implies script[n + j] == (Cmd::Incoming {
            phi: phi_at(base, j) as u64,
            val: vs[j],
            from: b,
        }) by {
            assert(mid.script[st.script.len() + j] == (Cmd::Incoming {
                phi: t.phis[j],
                val: vs[j],
                from: b,
            }));
            assert(script[n + j] == mid.script[n + j]);
            assert(l.q.t.phis[j] == phi_at(base, j));
        }
    }
    lemma_edges_run(script, base, n, k, vs, b, 0, m);
    let back = m.left(b);
    assert(opened(script, n + k) == b) by {
        lemma_opened(script, st.script, n);
        assert forall|j: int| n <= j < n + k implies !(#[trigger] script[j] is At) by {
            assert(phi_at(base, j - n) == base + 2 * (j - n));
            assert(script[n + (j - n)] == script[j]);
        }
        lemma_edges_opened(script, n, n + k);
    }
    lemma_seek_none(script, t.head, n + k + 1);
    lemma_seek_at(script, t.head, 0, l.start() + 2);
    assert(run(script, n + k, m) == Outcome::Back(l.start() + 2, back));
    lemma_back_leads(script, n, m, l.start() + 2, back);
    assert(run(script, l.start() + 2, back) == run(script, base, back));
    lemma_run_leads(script, l.start() + 2, back, base, back);
    lemma_leads(script, n, m, l.start() + 2, back, 1, base, back, 0);
    assert forall|j: int| #![trigger phi_at(base, j)] 0 <= j < k implies edge(
        script,
        phi_at(base, j),
        back.came,
        phi_at(base, j) + 1,
    ) == Some(vs[j]) && back.past(vs[j]) == words[j] by {
        let phi = phi_at(base, j);
        assert forall|i: int| phi + 1 <= i < n + j implies !(#[trigger] script[i] matches Cmd::Incoming {
            phi: q,
            val,
            from,
        } && q == phi && from == b) by {
            if i < n {
                assert(script[i] == st.script[i]);
            } else {
                assert(phi_at(base, i - n) == base + 2 * (i - n));
                assert(script[n + (i - n)] == script[i]);
            }
        }
        assert(script[n + j] == (Cmd::Incoming { phi: phi as u64, val: vs[j], from: b }));
        lemma_edge_at(script, phi, b, phi + 1, n + j, vs[j]);
    }
    let after = lemma_phis_run(script, base, k, l.seeds(), l.q.start.cx.block, vs, words, 0, back);
    assert(phi_at(base, 0) == base && phi_at(base, k) == base + 2 * k);
    lemma_run_leads(script, base, back, base + 2 * k, after);
    lemma_leads(script, n, m, base, back, 1, base + 2 * k, after, 0);
    assert(goes_on(l.m, after, l.start())) by {
        assert forall|i: u64| i < l.start() implies after.regs[i] == #[trigger] l.m.regs[i] by {
            assert(m.regs[i] == l.m.regs[i]);
            assert(back.regs[i] == m.regs[i]);
        }
    }
    after
}

// ── what follows a part of the code ──────────────────────────────────────
proof fn lemma_if_followed(script: Seq<Cmd>, st: St, t1: St, e1: St, end: St, c: Val, a: Val, b: Val)
    requires
        if_around(
            script,
            st.script.len() as int,
            t1.script.len() as int,
            e1.script.len() as int,
            c,
            a,
            b,
            t1.cx.block,
            e1.cx.block,
        ),
        end.script.len() == e1.script.len() + 5,
        end.cx.block == st.script.len() + 3,
        followed_by(script, st, end),
        if_head(st, c).0.script.len() == st.script.len() + 6,
        if_turn(st, c, t1).script.len() == t1.script.len() + 2,
    ensures
        followed_by(script, if_head(st, c).0, t1),
        followed_by(script, if_turn(st, c, t1), e1),
{
    let n = st.script.len() as int;
    let t = t1.script.len() as int;
    let e = e1.script.len() as int;
    assert forall|i: int| t <= i < script.len() implies (#[trigger] script[i] matches Cmd::At { block }
        ==> block < n + 6 || t <= block || block == t1.cx.block) by {
    }
    assert forall|i: int| e <= i < script.len() implies (#[trigger] script[i] matches Cmd::At { block }
        ==> block < t + 2 || e <= block || block == e1.cx.block) by {
    }
}

proof fn lemma_followed(script: Seq<Cmd>, st: St, next: St, end: St)
    requires
        laid_in(st, next),
        laid_in(next, end),
        extends(script, end.script),
        followed_by(script, st, end),
    ensures
        followed_by(script, st, next),
        followed_by(script, next, end),
{
    assert forall|i: int| next.script.len() <= i < script.len() implies (#[trigger] script[i] matches Cmd::At {
        block,
    } ==> block < st.script.len() || next.script.len() <= block || block == next.cx.block) by {
        if i < end.script.len() {
            assert(script[i] == end.script[i]);
        }
    }
}

/// What follows a part in tail position.
pub open spec fn tail_followed(script: Seq<Cmd>, st: St, end: St, head: u64) -> bool {
    &&& countable(end)
    &&& extends(script, end.script)
    &&& apart(script, st.script.len() as int, end.script.len() as int)
    &&& unentered(script, end.script.len() as int, head)
}

proof fn lemma_tail_followed(script: Seq<Cmd>, st: St, next: St, end: St, head: u64, phis: Seq<u64>)
    requires
        laid_in(st, next),
        tail_woven(next, end, phis),
        tail_followed(script, st, end, head),
    ensures
        followed_by(script, st, next),
        tail_followed(script, next, end, head),
        extends(script, next.script),
{
    lemma_extends(next.script, end.script, script);
    assert forall|i: int| next.script.len() <= i < script.len() implies (#[trigger] script[i] matches Cmd::At {
        block,
    } ==> block < st.script.len() || next.script.len() <= block || block == next.cx.block) by {
        if i < end.script.len() {
            assert(script[i] == end.script[i]);
        }
    }
}

proof fn lemma_fed_on(st: St, end: St, base: int, k: int)
    requires
        base + 2 * k <= st.script.len(),
        fed_before(st, base, k),
        laid_in(st, end),
    ensures
        fed_before(end, base, k),
{
    assert forall|i: int| 0 <= i < end.script.len() implies (#[trigger] end.script[i] matches Cmd::Incoming {
        phi,
        from,
        ..
    } ==> (base <= phi < base + 2 * k ==> from < end.script.len() && from != end.cx.block)) by {
        if i < st.script.len() {
            assert(end.script[i] == st.script[i]);
        }
    }
}

proof fn lemma_fed_second(st: St, c: Val, mid: St, base: int, k: int, phis: Seq<u64>)
    requires
        fit(st),
        st.script.len() + 8 <= u64::MAX,
        base + 2 * k <= st.script.len(),
        fed_before(st, base, k),
        tail_woven(tail_branch(st, c), mid, phis),
        mid.cx.resume is None,
    ensures
        fed_before(tail_turn(st, mid), base, k),
{
    lemma_tail_branch(st, c);
    lemma_second_fit(st, c, mid, phis);
    let head = tail_branch(st, c);
    let turn = tail_turn(st, mid);
    let n = st.script.len() as int;
    lemma_extends(st.script, head.script, mid.script);
    assert forall|i: int| 0 <= i < turn.script.len() implies (#[trigger] turn.script[i] matches Cmd::Incoming {
        phi,
        from,
        ..
    } ==> (base <= phi < base + 2 * k ==> from < turn.script.len() && from != turn.cx.block)) by {
        if i < n {
            assert(turn.script[i] == mid.script[i]);
            assert(mid.script[i] == st.script[i]);
        } else if i < n + 5 {
            assert(turn.script[i] == mid.script[i]);
            assert(mid.script[i] == head.script[i]);
        } else if i < mid.script.len() {
            assert(turn.script[i] == mid.script[i]);
        }
    }
}

// ── one part after another ───────────────────────────────────────────────
proof fn lemma_does_after(
    script: Seq<Cmd>,
    n: int,
    m: Machine,
    h: Held,
    k: int,
    mid: Machine,
    i: nat,
    now: Held,
    end: St,
    v: Val,
    ends: Ends,
    seen: Names,
    r: Did,
) -> (b: Did)
    requires
        n <= k,
        leads_in(script, n, m, k, mid, i),
        goes_on(m, mid, n),
        kept(m.store(), h, mid.store(), now),
        does(script, k, mid, now, end, v, ends, seen, r),
    ensures
        does(script, n, m, h, end, v, ends, seen, b),
        b == (Did { j: i + r.j, ..r }),
{
    let b = Did { j: i + r.j, ..r };
    match ends {
        Ends::Value(val, w) => {
            lemma_kept(m.store(), h, mid.store(), now, r.after.store(), r.h);
            lemma_leads(script, n, m, k, mid, i, end.script.len() as int, r.after, r.j);
            lemma_goes_on(m, mid, r.after, n, k);
        },
        Ends::Trap => lemma_leads_to_trap(script, n, m, k, mid, i, r.j),
        Ends::Open => {},
    }
    b
}

/// What is in force behind a binding.
proof fn lemma_next_force(
    st: St,
    mid_st: St,
    v: Val,
    name: String,
    ty: Rc<Type>,
    layout: ValueLayout,
    m: Machine,
    h: Held,
    env: Env,
    cells: Env,
    seen: Names,
    val: Value,
    w: World,
    later: Names,
    script: Seq<Cmd>,
    r: Did,
)
    requires
        in_force(st, m, env, cells, h, seen, script),
        binds_one(st, mid_st.bind(name, v, ty, layout), name@),
        fit(mid_st.bind(name, v, ty, layout)),
        does(
            script,
            st.script.len() as int,
            m,
            h,
            mid_st,
            v,
            Ends::Value(val, w),
            later,
            r,
        ),
    ensures
        in_force(
            mid_st.bind(name, v, ty, layout),
            r.after,
            env.insert(name@, val),
            w.cells,
            r.h,
            later,
            script,
        ),
{
    let next = mid_st.bind(name, v, ty, layout);
    let now = env.insert(name@, val);
    assert(vars_hold(next, r.after, now, r.h, script)) by {
        assert forall|x: Seq<char>| #[trigger]
            next.cx.env.get(x) matches Some(e) ==> now.dom().contains(x) && stands_for(
                now[x],
                r.after.value(e.value),
                r.after.mem,
                r.h.closures,
                script,
            ) by {
            if x != name@ {
                assert(next.cx.env.get(x) == st.cx.env.get(x));
                if let Some(e) = st.cx.env.get(x) {
                    assert(ready(st, e.value));
                    assert(r.after.value(e.value) == m.value(e.value));
                    lemma_stands_on(
                        env[x],
                        m.value(e.value),
                        m.store(),
                        h,
                        r.after.store(),
                        r.h,
                        script,
                    );
                }
            }
        }
    }
    assert(slots_hold(next, r.after, w.cells, r.h, script)) by {
        assert forall|x: Seq<char>| #[trigger] w.cells.dom().contains(x) implies slot_at(next, r.after, x)
            == slot_at(mid_st, r.after, x) by {}
    }
}

/// What is in force goes on so where nothing is stored.
proof fn lemma_force_on(
    st: St,
    end: St,
    m: Machine,
    after: Machine,
    env: Env,
    cells: Env,
    h: Held,
    seen: Names,
    script: Seq<Cmd>,
)
    requires
        in_force(st, m, env, cells, h, seen, script),
        fit(end),
        end.cx.env == st.cx.env,
        forall|x: Seq<char>|
            cells.dom().contains(x) ==> #[trigger] end.cx.slots.get(x) == st.cx.slots.get(x),
        goes_on(m, after, st.script.len() as int),
        after.store() == m.store(),
    ensures
        in_force(end, after, env, cells, h, seen, script),
        kept(m.store(), h, after.store(), h),
{
    lemma_kept_self(m.store(), h);
    lemma_vars_on(st, end, m, h, after, h, env, script);
    lemma_slots_on(st, end, m, h, after, h, cells, script);
}

// ── calls ────────────────────────────────────────────────────────────────
proof fn lemma_applies_cells(f: Value, args: Seq<Value>, w: World, turns: nat)
    ensures
        applies(f, args, w, turns) matches Ends::Value(_, after) ==> after.cells == w.cells,
    decreases turns,
{
    if args.len() > 0 && turns > 0 {
        if let Value::Fun(c) = f {
            if let Ends::Value(v, body) = evaluate_block(
                lam_body(c.lam),
                c.inside(args[0]),
                w.called(),
                (turns - 1) as nat,
            ) {
                lemma_applies_cells(
                    v,
                    args.drop_first(),
                    World { cells: w.cells, left: body.left },
                    (turns - 1) as nat,
                );
            }
        }
    }
}

proof fn lemma_applies_one(c: Closure, val: Value, w: World, turns: nat)
    ensures
        applies(Value::Fun(c), seq![val], w, turns) is Open || (turns > 0 && ends_alike(
            applies(Value::Fun(c), seq![val], w, turns),
            evaluate_block(
                lam_body(c.lam),
                c.inside(val),
                World { cells: Map::empty(), left: w.left },
                (turns - 1) as nat,
            ),
        )),
{
    reveal_with_fuel(applies, 2);
    assert(w.called() == World { cells: Map::empty(), left: w.left });
}

/// A call that answered is done.
proof fn lemma_call_done(
    st: St,
    script: Seq<Cmd>,
    m: Machine,
    h: Held,
    env: Env,
    w: World,
    seen: Names,
    end: St,
    v: Val,
    answer: Answer,
    ends: Ends,
    now: Held,
    after: Machine,
) -> (r: Did)
    requires
        in_force(st, m, env, w.cells, h, seen, script),
        answers_so(
            script,
            st.script.len() as int,
            m,
            end.script.len() as int,
            v,
            answer,
            after,
        ),
        answered(answer, ends, m.store(), h, now, m.room, script),
        ends matches Ends::Value(_, later) ==> later.cells == w.cells,
        forall|x: Seq<char>|
            w.cells.dom().contains(x) ==> #[trigger] end.cx.slots.get(x) == st.cx.slots.get(x),
    ensures
        does(script, st.script.len() as int, m, h, end, v, ends, seen, r),
{
    let n = st.script.len() as int;
    let e = end.script.len() as int;
    match ends {
        Ends::Value(val, later) => {
            let s = answer->Word_1;
            assert(after.store() == s);
            lemma_kept_behind(m.store(), h, s, now);
            lemma_run_leads(script, n, m, e, after);
            lemma_slots_on(st, end, m, h, after, h.behind(now), w.cells, script);
            Did { after, j: 0, h: h.behind(now) }
        },
        Ends::Trap => {
            assert forall|t: nat| t >= 0 implies #[trigger] runs(script, n, m, t) is Trap by {}
            Did { after, j: 0, h }
        },
        Ends::Open => Did { after, j: 0, h },
    }
}

/// The functions of a closure, and their code.
#[verifier::rlimit(30)]
proof fn lemma_code_funs(st: St, fuel: nat, c: Closure, p: Closed, seen: Names, script: Seq<Cmd>, m: Machine) -> (r: (
    FunCode,
    FunCode,
))
    requires
        code_of(st, fuel, c.own, c.lam, p, seen, script),
        m.args.len() == 0,
    ensures
        fun_laid(st, fuel, c, p.caps, r.0, seen, script),
        !r.0.t.uncurried,
        all_params(c.lam).len() >= 2 ==> fun_laid(p.named, fuel, c, p.caps, r.1, seen, script)
            && r.1.t.uncurried,
{
    let own = c.own;
    let lam = c.lam;
    let end = closing(st, fuel, own, lam)->Ok_0.0;
    let a = lemma_closing_sized(st, fuel, own, lam, seen);
    assert(a.caps == p.caps && a.made == p.made && a.named == p.named && a.last == p.last);
    let b = lemma_closing_woven(st, fuel, own, lam, seen, m);
    assert(b.made == p.made && b.named == p.named && b.last == p.last);
    lemma_chain(lam, seen);
    let q = lemma_lifting_is(st, fuel, own, lam, p.caps, seen);
    let r = lemma_speeding_is(p.named, fuel, own, lam, p.caps, seen);
    lemma_extends(p.last.script, end.script, script);
    lemma_extends(p.named.script, p.last.script, script);
    lemma_extends(p.made.script, p.named.script, script);
    assert(p.made == behind_fun(st, q));
    assert(extends(p.made.script, q.out.script));
    lemma_extends(q.out.script, p.made.script, script);
    let from = st.script.len() as int;
    let to = q.out.script.len() as int;
    assert(apart(script, from, to)) by {
        assert forall|i: int| to <= i < script.len() implies (#[trigger] script[i] matches Cmd::At {
            block,
        } ==> block < from || to <= block) by {
            if i < p.made.script.len() {
                assert(script[i] == p.made.script[i]);
            } else if i < p.named.script.len() {
                assert(script[i] == p.named.script[i]);
            } else if i < p.last.script.len() {
                assert(script[i] == p.last.script[i]);
            } else if i < end.script.len() {
                assert(script[i] == end.script[i]);
            }
        }
    }
    if all_params(lam).len() >= 2 {
        let done = behind_fun(p.named, r);
        let start = p.named.script.len() as int;
        let stop = r.out.script.len() as int;
        assert(extends(p.last.script, done.script));
        assert(extends(done.script, r.out.script));
        lemma_extends(done.script, p.last.script, script);
        lemma_extends(r.out.script, done.script, script);
        assert(apart(script, start, stop)) by {
            assert forall|i: int| stop <= i < script.len() implies (#[trigger] script[i] matches Cmd::At {
                block,
            } ==> block < start || stop <= block) by {
                if i < done.script.len() {
                    assert(script[i] == done.script[i]);
                } else if i < p.last.script.len() {
                    assert(script[i] == p.last.script[i]);
                } else if i < end.script.len() {
                    assert(script[i] == end.script[i]);
                }
            }
        }
    }
    (q, r)
}

/// What a closure captured stands for what is around its function.
proof fn lemma_captures_stand(
    c: Closure,
    st: St,
    fuel: nat,
    p: Closed,
    seen: Names,
    clos: u64,
    mem: Map<u64, u64>,
    cells: Set<u64>,
    script: Seq<Cmd>,
)
    requires
        stands_for(Value::Fun(c), clos, mem, cells, script),
        code_of(st, fuel, c.own, c.lam, p, seen, script),
        stands_at(st, c.lam, p, clos, mem, cells),
        forall|k: int|
            0 <= k < p.caps.len() ==> if of_itself(c.own, #[trigger] p.caps[k]) {
                captured_word(p.caps[k], clos, mem) == clos
            } else {
                c.env.dom().contains(p.caps[k].name@) && stands_for(
                    c.env[p.caps[k].name@],
                    captured_word(p.caps[k], clos, mem),
                    mem,
                    cells,
                    script,
                )
            },
    ensures
        captures_stand(c, p.caps, clos, mem, cells, script),
{
    assert forall|k: int| 0 <= k < p.caps.len() implies c.around().dom().contains(
        (#[trigger] p.caps[k]).name@,
    ) && stands_for(
        c.around()[p.caps[k].name@],
        captured_word(p.caps[k], clos, mem),
        mem,
        cells,
        script,
    ) by {
        if of_itself(c.own, p.caps[k]) {
            assert(c.around()[p.caps[k].name@] == Value::Fun(c));
        } else {
            assert(c.around()[p.caps[k].name@] == c.env[p.caps[k].name@]);
        }
    }
}

/// Where the code of a closure that stands lies, and what it captured.
proof fn lemma_standing(c: Closure, clos: u64, mem: Map<u64, u64>, cells: Set<u64>, script: Seq<Cmd>) -> (r: (
    St,
    nat,
    Closed,
    Names,
))
    requires
        stands_for(Value::Fun(c), clos, mem, cells, script),
    ensures
        code_of(r.0, r.1, c.own, c.lam, r.2, r.3, script),
        stands_at(r.0, c.lam, r.2, clos, mem, cells),
        captures_stand(c, r.2.caps, clos, mem, cells, script),
{
    let (st, fuel, p, seen) = choose|st: St, fuel: nat, p: Closed, seen: Names|
        {
            &&& #[trigger] code_of(st, fuel, c.own, c.lam, p, seen, script)
            &&& stands_at(st, c.lam, p, clos, mem, cells)
            &&& forall|k: int|
                0 <= k < p.caps.len() ==> if of_itself(c.own, #[trigger] p.caps[k]) {
                    captured_word(p.caps[k], clos, mem) == clos
                } else {
                    c.env.dom().contains(p.caps[k].name@) && stands_for(
                        c.env[p.caps[k].name@],
                        captured_word(p.caps[k], clos, mem),
                        mem,
                        cells,
                        script,
                    )
                }
        };
    lemma_captures_stand(c, st, fuel, p, seen, clos, mem, cells, script);
    (st, fuel, p, seen)
}

/// What code that returns answers to a call.
proof fn lemma_comes_answered(
    func: u64,
    args: Seq<u64>,
    s: Store,
    code: Code,
    room: Room,
    h: Held,
    ends: Ends,
    b: Back,
    script: Seq<Cmd>,
)
    requires
        of_script(code, room, script),
        comes(
            script,
            begins(func, args),
            called(func, args, s, code, room),
            h.called(),
            ends,
            b,
        ),
    ensures
        answered(code(func, args, s), ends, s, h, b.h, room, script),
{
    let m = called(func, args, s, code, room);
    let pc = begins(func, args);
    assert(m.store() == s);
    match ends {
        Ends::Value(v, w) => {
            assert(runs(script, pc, m, b.j) == Outcome::Returned(b.w, b.s));
        },
        Ends::Trap => {
            assert(runs(script, pc, m, b.j) is Trap);
        },
        Ends::Open => {},
    }
}

// ── how programs run ─────────────────────────────────────────────────────
/// A computation does what it means.
proof fn lemma_comp_does(
    st: St,
    fuel: nat,
    comp: Comp,
    env: Env,
    w: World,
    turns: nat,
    held: Names,
    seen: Names,
    script: Seq<Cmd>,
    m: Machine,
    h: Held,
) -> (r: Did)
    requires
        in_force(st, m, env, w.cells, h, seen, script),
        held.subset_of(seen),
        running(m, w, script),
        spoken(comp, held, seen),
        of_comp(st, fuel, comp) is Ok,
        countable(of_comp(st, fuel, comp)->Ok_0.0),
        extends(script, of_comp(st, fuel, comp)->Ok_0.0.script),
        followed_by(script, st, of_comp(st, fuel, comp)->Ok_0.0),
    ensures
        does(
            script,
            st.script.len() as int,
            m,
            h,
            of_comp(st, fuel, comp)->Ok_0.0,
            of_comp(st, fuel, comp)->Ok_0.1,
            evaluate(comp, env, w, turns),
            seen_with(comp, seen),
            r,
        ),
    decreases turns, 1int, comp, turns + 3,
{
    match comp {
        Comp::Atom(_) => lemma_bin_does(st, fuel, comp, env, w, turns, held, seen, script, m, h),
        Comp::Bin(..) => lemma_bin_does(st, fuel, comp, env, w, turns, held, seen, script, m, h),
        Comp::If(..) => lemma_if_does(st, fuel, comp, env, w, turns, held, seen, script, m, h),
        Comp::Loop { .. } => lemma_loop_does(st, fuel, comp, env, w, turns, held, seen, script, m, h),
        Comp::Lam { .. } => {
            lemma_lam_is(st, fuel, comp);
            lemma_again(comp, held, seen);
            lemma_closing_does(st, fuel, None, comp, env, w, seen, script, m, h)
        },
        Comp::App { .. } => lemma_app_does(st, fuel, comp, env, w, turns, held, seen, script, m, h),
        Comp::Call { .. } => lemma_call_does(st, fuel, comp, env, w, turns, held, seen, script, m, h),
        Comp::SlotInit(..) => lemma_init_does(st, fuel, comp, env, w, turns, seen, script, m, h),
        Comp::SlotLoad(_) => lemma_load_does(st, fuel, comp, env, w, turns, seen, script, m, h),
        Comp::SlotStore(..) => lemma_store_does(st, fuel, comp, env, w, turns, seen, script, m, h),
        _ => Did { after: m, j: 0, h },
    }
}

/// A call of one argument.
proof fn lemma_app_does(
    st: St,
    fuel: nat,
    comp: Comp,
    env: Env,
    w: World,
    turns: nat,
    held: Names,
    seen: Names,
    script: Seq<Cmd>,
    m: Machine,
    h: Held,
) -> (r: Did)
    requires
        in_force(st, m, env, w.cells, h, seen, script),
        held.subset_of(seen),
        running(m, w, script),
        comp is App,
        spoken(comp, held, seen),
        of_comp(st, fuel, comp) is Ok,
        countable(of_comp(st, fuel, comp)->Ok_0.0),
        extends(script, of_comp(st, fuel, comp)->Ok_0.0.script),
    ensures
        does(
            script,
            st.script.len() as int,
            m,
            h,
            of_comp(st, fuel, comp)->Ok_0.0,
            of_comp(st, fuel, comp)->Ok_0.1,
            evaluate(comp, env, w, turns),
            seen,
            r,
        ),
    decreases turns, 1int, comp, 0nat,
{
    let (end, v) = of_comp(st, fuel, comp)->Ok_0;
    let (clos, arg) = lemma_app_is(st, fuel, comp);
    let fun = comp->App_fun;
    let a = comp->App_arg;
    assert(no_text(call_args(comp)[0]));
    lemma_comp_sized(st, fuel, comp, held, seen);
    lemma_atom_stands(st, fun, m, env, h, script);
    lemma_atom_stands(st, a, m, env, h, script);
    lemma_atom_ready(st, fun);
    lemma_atom_ready(st, a);
    lemma_apply_len(st, clos, arg, comp->App_arg_ty, comp->App_ret_ty);
    let after = lemma_apply_one(st, clos, arg, comp->App_arg_ty, comp->App_ret_ty, script, m);
    let vals = atom_values(call_args(comp), env);
    let words = seq![m.value(arg)];
    let f = atom_value(fun, env);
    assert(vals =~= seq![atom_value(a, env)]);
    assert(all_stand(vals, words, m.mem, h.closures, script));
    let ends = applies(f, vals, w, turns);
    assert(evaluate(comp, env, w, turns) == ends);
    let now = lemma_chain_answers(
        f,
        m.value(clos),
        vals,
        words,
        w,
        turns,
        m.store(),
        h,
        m.code,
        m.room,
        script,
    );
    let answer = applied(false, m.code, m.value(clos), m.value(arg), m.store());
    assert(chained(false, m.code, m.value(clos), words, m.store()) == answer) by {
        reveal_with_fuel(chained, 2);
        assert(words.drop_first() =~= Seq::<u64>::empty());
    }
    lemma_applies_cells(f, vals, w, turns);
    lemma_call_done(st, script, m, h, env, w, seen, end, v, answer, ends, now, after)
}

/// A call with all its arguments.
proof fn lemma_call_does(
    st: St,
    fuel: nat,
    comp: Comp,
    env: Env,
    w: World,
    turns: nat,
    held: Names,
    seen: Names,
    script: Seq<Cmd>,
    m: Machine,
    h: Held,
) -> (r: Did)
    requires
        in_force(st, m, env, w.cells, h, seen, script),
        held.subset_of(seen),
        running(m, w, script),
        comp is Call,
        spoken(comp, held, seen),
        of_comp(st, fuel, comp) is Ok,
        countable(of_comp(st, fuel, comp)->Ok_0.0),
        extends(script, of_comp(st, fuel, comp)->Ok_0.0.script),
    ensures
        does(
            script,
            st.script.len() as int,
            m,
            h,
            of_comp(st, fuel, comp)->Ok_0.0,
            of_comp(st, fuel, comp)->Ok_0.1,
            evaluate(comp, env, w, turns),
            seen,
            r,
        ),
    decreases turns, 1int, comp, 0nat,
{
    let (end, v) = of_comp(st, fuel, comp)->Ok_0;
    let clos = lemma_call_is(st, fuel, comp);
    let fun = comp->Call_fun;
    let atoms = call_args(comp);
    let vs = vals_of(st, atoms);
    lemma_comp_sized(st, fuel, comp, held, seen);
    lemma_atom_stands(st, fun, m, env, h, script);
    lemma_atom_ready(st, fun);
    assert forall|k: int| 0 <= k < vs.len() implies ready(st, #[trigger] vs[k]) by {
        assert(no_text(atoms[k]));
        assert(st.atom(atoms[k]) is Ok);
        lemma_atom_ready(st, atoms[k]);
    }
    let after = a_saturated_call_goes_by_arity(
        st,
        clos,
        comp->Call_args@,
        vs,
        comp->Call_fun_ty,
        script,
        m,
    );
    let vals = atom_values(atoms, env);
    let words = words_of(m, vs);
    let f = atom_value(fun, env);
    assert(all_stand(vals, words, m.mem, h.closures, script)) by {
        assert forall|k: int| 0 <= k < vals.len() implies stands_for(
            #[trigger] vals[k],
            words[k],
            m.mem,
            h.closures,
            script,
        ) by {
            assert(no_text(atoms[k]));
            assert(st.atom(atoms[k]) is Ok);
            lemma_atom_stands(st, atoms[k], m, env, h, script);
        }
    }
    let ends = applies(f, vals, w, turns);
    assert(evaluate(comp, env, w, turns) == ends);
    let answer = picked(false, m.code, m.value(clos), words, m.store());
    let now = lemma_picked_answers(
        f,
        m.value(clos),
        vals,
        words,
        w,
        turns,
        m.store(),
        h,
        m.code,
        m.room,
        script,
    );
    lemma_applies_cells(f, vals, w, turns);
    lemma_call_done(st, script, m, h, env, w, seen, end, v, answer, ends, now, after)
}

/// A branch.
#[verifier::rlimit(60)]
#[verifier::spinoff_prover]
proof fn lemma_if_does(
    st: St,
    fuel: nat,
    comp: Comp,
    env: Env,
    w: World,
    turns: nat,
    held: Names,
    seen: Names,
    script: Seq<Cmd>,
    m: Machine,
    h: Held,
) -> (r: Did)
    requires
        in_force(st, m, env, w.cells, h, seen, script),
        held.subset_of(seen),
        running(m, w, script),
        comp is If,
        spoken(comp, held, seen),
        of_comp(st, fuel, comp) is Ok,
        countable(of_comp(st, fuel, comp)->Ok_0.0),
        extends(script, of_comp(st, fuel, comp)->Ok_0.0.script),
        followed_by(script, st, of_comp(st, fuel, comp)->Ok_0.0),
    ensures
        does(
            script,
            st.script.len() as int,
            m,
            h,
            of_comp(st, fuel, comp)->Ok_0.0,
            of_comp(st, fuel, comp)->Ok_0.1,
            evaluate(comp, env, w, turns),
            seen,
            r,
        ),
    decreases turns, 1int, comp, 0nat,
{
    let n = st.script.len() as int;
    let (end, v) = of_comp(st, fuel, comp)->Ok_0;
    let yes = target(comp->If_1);
    let no = target(comp->If_2);
    let (c, t1, a, e1, b) = lemma_of_if(st, fuel, comp);
    let t = t1.script.len() as int;
    let e = e1.script.len() as int;
    let head = if_head(st, c).0;
    let turn = if_turn(st, c, t1);
    let p = lemma_if_laid_out(st, fuel, comp, held, seen, script, m, c, t1, a, e1, b);
    lemma_atom_stands(st, comp->If_0, m, env, h, script);
    lemma_if_enter(script, n, t, e, c, a, b, t1.cx.block, e1.cx.block, m);
    let m2 = branched(script, n, c, m);
    lemma_head(st, c);
    assert(goes_on(m, m2, n));
    assert(m2.store() == m.store());
    let first = m.value(c) != 0;
    if !(atom_value(comp->If_0, env) is Word) {
        Did { after: m, j: 0, h }
    } else if first {
        lemma_run_leads(script, n, m, n + 6, m2);
        lemma_force_on(st, head, m, m2, env, w.cells, h, seen, script);
        let r1 = lemma_block_does(head, fuel, yes, env, w, turns, seen, seen, script, m2, h);
        let block = evaluate_block(yes, env, w, turns);
        if let Ends::Value(val, bw) = block {
            let after = lemma_if_leave(
                script,
                n,
                t,
                e,
                c,
                a,
                b,
                t1.cx.block,
                e1.cx.block,
                true,
                r1.after,
            );
            lemma_branch_left(
                st, head, t1, a, end, v, t, script, m, m2, h, w, val, bw, seen, r1, after, n + 6, e,
            )
        } else {
            if block is Trap {
                lemma_leads_to_trap(script, n, m, n + 6, m2, 0, r1.j);
            }
            r1
        }
    } else {
        lemma_run_leads(script, n, m, t + 2, m2);
        lemma_force_on(st, turn, m, m2, env, w.cells, h, seen, script);
        let r1 = lemma_block_does(turn, fuel, no, env, w, turns, seen, seen, script, m2, h);
        let block = evaluate_block(no, env, w, turns);
        if let Ends::Value(val, bw) = block {
            let after = lemma_if_leave(
                script,
                n,
                t,
                e,
                c,
                a,
                b,
                t1.cx.block,
                e1.cx.block,
                false,
                r1.after,
            );
            lemma_branch_left(
                st, turn, e1, b, end, v, e, script, m, m2, h, w, val, bw, seen, r1, after, t + 2, e,
            )
        } else {
            if block is Trap {
                lemma_leads_to_trap(script, n, m, t + 2, m2, 0, r1.j);
            }
            r1
        }
    }
}

/// How a branch lies in the script.
#[verifier::rlimit(30)]
proof fn lemma_if_laid_out(
    st: St,
    fuel: nat,
    comp: Comp,
    held: Names,
    seen: Names,
    script: Seq<Cmd>,
    m: Machine,
    c: Val,
    t1: St,
    a: Val,
    e1: St,
    b: Val,
)
    requires
        fit(st),
        m.args.len() == 0,
        held.subset_of(seen),
        comp is If,
        spoken(comp, held, seen),
        of_comp(st, fuel, comp) is Ok,
        countable(of_comp(st, fuel, comp)->Ok_0.0),
        extends(script, of_comp(st, fuel, comp)->Ok_0.0.script),
        followed_by(script, st, of_comp(st, fuel, comp)->Ok_0.0),
        crate::shape::if_parts(st, fuel, comp, c, t1, a, e1, b),
    ensures
        ({
            let end = of_comp(st, fuel, comp)->Ok_0.0;
            let v = of_comp(st, fuel, comp)->Ok_0.1;
            let head = if_head(st, c).0;
            let turn = if_turn(st, c, t1);
            let n = st.script.len() as int;
            &&& if_around(
                script,
                n,
                t1.script.len() as int,
                e1.script.len() as int,
                c,
                a,
                b,
                t1.cx.block,
                e1.cx.block,
            )
            &&& fit(head)
            &&& fit(turn)
            &&& fit(t1)
            &&& fit(e1)
            &&& countable(t1)
            &&& countable(e1)
            &&& extends(script, t1.script)
            &&& extends(script, e1.script)
            &&& followed_by(script, head, t1)
            &&& followed_by(script, turn, e1)
            &&& head.cx.env == st.cx.env
            &&& turn.cx.env == st.cx.env
            &&& head.cx.slots == st.cx.slots
            &&& head.script.len() == n + 6
            &&& turn.script.len() == t1.script.len() + 2
            &&& slots_kept(st, t1, seen)
            &&& slots_kept(st, turn, seen)
            &&& slots_kept(st, e1, seen)
            &&& end.cx.slots == e1.cx.slots
            &&& end.script.len() == e1.script.len() + 5
            &&& v.id == Id::Reg((e1.script.len() + 2) as u64)
            &&& n + 6 <= t1.script.len()
            &&& t1.script.len() + 2 <= e1.script.len()
            &&& ready(t1, a)
            &&& ready(e1, b)
        }),
{
    let (end, v) = of_comp(st, fuel, comp)->Ok_0;
    let yes = target(comp->If_1);
    let no = target(comp->If_2);
    let head = if_head(st, c).0;
    let turn = if_turn(st, c, t1);
    crate::currying::lemma_plain_kept(st, head);
    lemma_block_sized(head, fuel, yes, seen, seen);
    crate::currying::lemma_plain_kept(st, turn);
    lemma_block_sized(turn, fuel, no, seen, seen);
    lemma_head(st, c);
    crate::spreading::lemma_head_fit(st, c);
    lemma_block_woven(head, fuel, yes, seen, seen, m);
    crate::spreading::lemma_turn_fit(st, c, t1);
    lemma_turn(st, c, t1);
    lemma_block_woven(turn, fuel, no, seen, seen, m);
    lemma_if_around(st, c, t1, a, e1, b, script);
    lemma_if_laid(st, c, t1, a, e1, b);
    lemma_if_grown(st, c, t1, a, e1, b);
    lemma_if_followed(script, st, t1, e1, end, c, a, b);
    crate::weaving::lemma_slots_then(st, head, t1, seen);
    crate::weaving::lemma_slots_then(st, t1, turn, seen);
    crate::weaving::lemma_slots_then(st, turn, e1, seen);
}

/// A block of a branch is left: its mutable locals are gone.
proof fn lemma_branch_left(
    st: St,
    head: St,
    part: St,
    x: Val,
    end: St,
    v: Val,
    at: int,
    script: Seq<Cmd>,
    m: Machine,
    m2: Machine,
    h: Held,
    w: World,
    val: Value,
    bw: World,
    seen: Names,
    r1: Did,
    after: Machine,
    k: int,
    e: int,
) -> (r: Did)
    requires
        st.script.len() <= k,
        k == head.script.len(),
        k <= at,
        at == part.script.len(),
        at <= e,
        fit(part),
        slots_kept(st, part, seen),
        slots_kept(st, end, seen),
        w.cells.dom().subset_of(seen),
        leads_in(script, st.script.len() as int, m, k, m2, 0),
        goes_on(m, m2, st.script.len() as int),
        m2.store() == m.store(),
        h.sound(m.mem),
        does(
            script,
            k,
            m2,
            h,
            part,
            x,
            Ends::Value(val, bw),
            Set::full(),
            r1,
        ),
        keeps(r1.after, after, e),
        end.script.len() == e + 5,
        v.id == Id::Reg((e + 2) as u64),
        after.regs[(e + 2) as u64] == r1.after.value(x),
        run(script, at, r1.after) == run(script, e + 5, after),
    ensures
        does(
            script,
            st.script.len() as int,
            m,
            h,
            end,
            v,
            leaves(Ends::Value(val, bw), w),
            seen,
            r,
        ),
{
    let n = st.script.len() as int;
    let cells = w.behind(bw).cells;
    lemma_kept_self(m.store(), h);
    lemma_run_leads(script, at, r1.after, e + 5, after);
    lemma_leads(script, n, m, k, m2, 0, at, r1.after, r1.j);
    lemma_leads(script, n, m, at, r1.after, r1.j, e + 5, after, 0);
    lemma_goes_on(m, m2, r1.after, n, k);
    assert(goes_on(r1.after, after, e));
    lemma_goes_on(m, r1.after, after, n, e);
    assert(after.store() == r1.after.store());
    assert forall|y: Seq<char>| #[trigger] cells.dom().contains(y) implies bw.cells.dom().contains(y)
        && slot_at(end, after, y) == slot_at(part, r1.after, y) && end.cx.slots.get(y) is Some
        && cells[y] == bw.cells[y] && seen.contains(y) by {
        assert(w.cells.dom().contains(y));
        assert(seen.contains(y));
        assert(part.cx.slots.get(y) == st.cx.slots.get(y));
        assert(end.cx.slots.get(y) == st.cx.slots.get(y));
        assert(ready(part, crate::standing::slot_of(part, y)));
    }
    assert(slots_hold(end, after, cells, r1.h, script));
    Did { after, j: r1.j, h: r1.h }
}

/// What is proved of the turns of a loop: they leave what lies before it.
pub open spec fn laps_do(
    script: Seq<Cmd>,
    pc: int,
    low: int,
    m: Machine,
    h: Held,
    end: St,
    v: Val,
    ends: Ends,
    seen: Names,
    r: Did,
) -> bool {
    match ends {
        Ends::Value(val, w) => {
            &&& leads_in(script, pc, m, end.script.len() as int, r.after, r.j)
            &&& goes_on(m, r.after, low)
            &&& stands_for(val, r.after.value(v), r.after.mem, r.h.closures, script)
            &&& kept(m.store(), h, r.after.store(), r.h)
            &&& slots_hold(end, r.after, w.cells, r.h, script)
            &&& w.cells.dom().subset_of(seen)
            &&& spacious(m.room, r.after.store(), w.left)
        },
        Ends::Trap => traps_in(script, pc, m, r.j),
        Ends::Open => true,
    }
}

proof fn lemma_laps_after(
    script: Seq<Cmd>,
    n: int,
    low: int,
    m: Machine,
    h: Held,
    k: int,
    mid: Machine,
    i: nat,
    now: Held,
    end: St,
    v: Val,
    ends: Ends,
    seen: Names,
    r: Did,
) -> (b: Did)
    requires
        leads_in(script, n, m, k, mid, i),
        goes_on(m, mid, low),
        kept(m.store(), h, mid.store(), now),
        laps_do(script, k, low, mid, now, end, v, ends, seen, r),
    ensures
        laps_do(script, n, low, m, h, end, v, ends, seen, b),
        b == (Did { j: i + r.j, ..r }),
{
    let b = Did { j: i + r.j, ..r };
    match ends {
        Ends::Value(val, w) => {
            lemma_kept(m.store(), h, mid.store(), now, r.after.store(), r.h);
            lemma_leads(script, n, m, k, mid, i, end.script.len() as int, r.after, r.j);
            lemma_goes_on(m, mid, r.after, low, low);
        },
        Ends::Trap => lemma_leads_to_trap(script, n, m, k, mid, i, r.j),
        Ends::Open => {},
    }
    b
}

proof fn lemma_vars_with(vars: Seq<LoopVar>, words: Seq<u64>, n: nat, known: Vars)
    requires
        n <= vars.len(),
    ensures
        vars_with(vars, words, n, known) == with_words(var_names(vars), words, n, known),
    decreases n,
{
    if n > 0 {
        lemma_vars_with(vars, words, (n - 1) as nat, known);
        assert(var_names(vars)[n - 1] == vars[n - 1].name@);
    }
}

proof fn lemma_heads_names(
    st: St,
    vars: Seq<LoopVar>,
    storages: Seq<LoopVarStorage>,
    inits: Seq<Val>,
    from: u64,
    i: nat,
    phis: Seq<Option<u64>>,
    x: Seq<char>,
)
    ensures
        var_names(vars).contains(x) || st.loop_head(vars, storages, inits, from, i, phis).0.cx.env.get(
            x,
        ) == st.cx.env.get(x),
    decreases vars.len() - i,
{
    if i < vars.len() {
        let var = vars[i as int];
        let init = inits[i as int];
        let phi = st.here();
        assert(var_names(vars)[i as int] == var.name@);
        if storages[i as int] is Scalar {
            let (next, v) = st.phi_as(
                init.ty,
                Title::Var { before: "loop.", name: var.name, after: "" },
            );
            let fed = next.incoming(phi, init, from);
            lemma_heads_names(
                fed.bind(var.name, v, var.ty, var.layout),
                vars,
                storages,
                inits,
                from,
                i + 1,
                phis.push(Some(phi)),
                x,
            );
        } else {
            lemma_heads_names(
                st.bind(var.name, init, var.ty, var.layout),
                vars,
                storages,
                inits,
                from,
                i + 1,
                phis.push(None),
                x,
            );
        }
    }
}

/// What the variables inside a loop stand for.
pub open spec fn loop_inside(comp: Comp, vals: Seq<Value>, env: Env) -> Env {
    with_values(var_names(comp->Loop_vars@), vals, comp->Loop_vars@.len(), env)
}

/// What is in force at the head of a loop.
proof fn lemma_loop_force(
    st: St,
    fuel: nat,
    comp: Comp,
    p: LoopParts,
    env: Env,
    vals: Seq<Value>,
    words: Seq<u64>,
    cells: Env,
    m: Machine,
    h: Held,
    seen: Names,
    script: Seq<Cmd>,
)
    requires
        in_force(st, m, env, cells, h, seen, script),
        p.of(st, fuel, comp),
        loop_woven(st, comp, p),
        p.head(st, comp).0.cx.slots == st.cx.slots,
        accumulated(st, comp, words, m),
        vals.len() == comp->Loop_vars@.len(),
        all_stand(vals, words, m.mem, h.closures, script),
    ensures
        in_force(
            p.head(st, comp).0,
            m,
            loop_inside(comp, vals, env),
            cells,
            h,
            seen,
            script,
        ),
{
    let vars = comp->Loop_vars@;
    let (hd, hh) = p.head(st, comp);
    let names = var_names(vars);
    let k = vars.len();
    let raw = words_in(st, m);
    let inside = loop_inside(comp, vals, env);
    lemma_words_in(st, m);
    lemma_loop_inside(st, fuel, comp, p, raw, words, m);
    lemma_vars_with(vars, words, k, raw);
    lemma_values_dom(names, vals, k, env);
    assert(vars_hold(hd, m, inside, h, script)) by {
        assert forall|x: Seq<char>| #[trigger]
            hd.cx.env.get(x) matches Some(e) ==> inside.dom().contains(x) && stands_for(
                inside[x],
                m.value(e.value),
                m.mem,
                h.closures,
                script,
            ) by {
            if let Some(e) = hd.cx.env.get(x) {
                let j = lemma_passed_value(names, vals, words, k, env, raw, x);
                lemma_heads_names(
                    loop_opened(st),
                    vars,
                    p.storages,
                    p.inits,
                    st.cx.block,
                    0,
                    Seq::empty(),
                    x,
                );
                assert(hd == loop_opened(st).loop_head(
                    vars,
                    p.storages,
                    p.inits,
                    st.cx.block,
                    0,
                    Seq::empty(),
                ).0);
                assert(m.value(e.value) == with_words(names, words, k, raw)[x]);
                if names.contains(x) {
                    let i = names.index_of(x);
                    assert(0 <= i < names.len() && names[i] == x);
                } else {
                    assert(!(exists|i: int| 0 <= i < names.len() && names[i] == x));
                    assert(st.cx.env.get(x) == hd.cx.env.get(x));
                }
            }
        }
    }
    assert(slots_hold(hd, m, cells, h, script)) by {
        assert forall|x: Seq<char>| #[trigger] cells.dom().contains(x) implies slot_at(hd, m, x)
            == slot_at(st, m, x) by {}
    }
}

/// A loop does what it means.
#[verifier::rlimit(40)]
proof fn lemma_loop_does(
    st: St,
    fuel: nat,
    comp: Comp,
    env: Env,
    w: World,
    turns: nat,
    held: Names,
    seen: Names,
    script: Seq<Cmd>,
    m: Machine,
    h: Held,
) -> (r: Did)
    requires
        in_force(st, m, env, w.cells, h, seen, script),
        held.subset_of(seen),
        running(m, w, script),
        comp is Loop,
        spoken(comp, held, seen),
        of_comp(st, fuel, comp) is Ok,
        countable(of_comp(st, fuel, comp)->Ok_0.0),
        extends(script, of_comp(st, fuel, comp)->Ok_0.0.script),
        followed_by(script, st, of_comp(st, fuel, comp)->Ok_0.0),
    ensures
        does(
            script,
            st.script.len() as int,
            m,
            h,
            of_comp(st, fuel, comp)->Ok_0.0,
            of_comp(st, fuel, comp)->Ok_0.1,
            evaluate(comp, env, w, turns),
            seen,
            r,
        ),
    decreases turns, 1int, comp, turns + 2,
{
    let n = st.script.len() as int;
    let (end, v) = of_comp(st, fuel, comp)->Ok_0;
    let vars = comp->Loop_vars@;
    let k = vars.len() as int;
    let p = lemma_loop_parts(st, fuel, comp, held, seen);
    let l = Round { st, fuel, comp, p, env, held, seen, script };
    lemma_round_laid(l, m);
    let words = Seq::new(vars.len(), |j: int| m.value(p.inits[j]));
    let vals = Seq::new(vars.len(), |j: int| atom_value(vars[j].init, env));
    assert(all_stand(vals, words, m.mem, h.closures, script)) by {
        assert forall|j: int| 0 <= j < vals.len() implies stands_for(
            #[trigger] vals[j],
            words[j],
            m.mem,
            h.closures,
            script,
        ) by {
            assert(cell_accumulator(vars[j]));
            assert(st.atom(vars[j].init) == Ok::<(St, Val), CodegenError>((st, p.inits[j])));
            lemma_atom_stands(st, vars[j].init, m, env, h, script);
        }
    }
    let after = lemma_loop_start(
        script,
        n,
        k,
        p.c1.script.len() as int,
        p.s1.script.len() as int,
        p.r1.script.len() as int,
        p.cv,
        p.inits,
        p.nexts,
        st.cx.block,
        p.s1.cx.block,
        words,
        m,
    );
    assert(goes_on(m, after, n));
    assert(after.store() == m.store());
    lemma_force_on(st, st, m, after, env, w.cells, h, seen, script);
    lemma_run_leads(script, n, m, n + 5 + 2 * k, after);
    let r = lemma_laps_do(l, vals, words, w, turns, turns, after, h);
    lemma_laps_after(
        script,
        n,
        n,
        m,
        h,
        n + 5 + 2 * k,
        after,
        0,
        h,
        end,
        v,
        evaluate_loop(comp, env, vals, w, turns, turns),
        seen,
        r,
    )
}

/// A loop, its code and what is in scope around it.
pub struct Round {
    pub st: St,
    pub fuel: nat,
    pub comp: Comp,
    pub p: LoopParts,
    pub env: Env,
    pub held: Names,
    pub seen: Names,
    pub script: Seq<Cmd>,
}

impl Round {
    pub open spec fn end(self) -> St {
        of_comp(self.st, self.fuel, self.comp)->Ok_0.0
    }

    pub open spec fn hd(self) -> St {
        self.p.head(self.st, self.comp).0
    }

    pub open spec fn body(self) -> St {
        self.p.body(self.st, self.comp)
    }

    pub open spec fn out(self) -> St {
        self.p.out(self.st, self.comp)
    }
}

/// How a loop lies in its script.
pub open spec fn round_laid(l: Round) -> bool {
    let n = l.st.script.len() as int;
    let k = l.comp->Loop_vars@.len() as int;
    &&& l.comp is Loop
    &&& spoken(l.comp, l.held, l.seen)
    &&& fit(l.st)
    &&& l.p.of(l.st, l.fuel, l.comp)
    &&& loop_woven(l.st, l.comp, l.p)
    &&& loop_around(
        l.script,
        n,
        k,
        l.p.c1.script.len() as int,
        l.p.s1.script.len() as int,
        l.p.r1.script.len() as int,
        l.p.cv,
        l.p.inits,
        l.p.nexts,
        l.st.cx.block,
        l.p.s1.cx.block,
    )
    &&& followed(l.script, n, l.p.r1.script.len() as int)
    &&& extends(l.script, l.p.c1.script)
    &&& extends(l.script, l.p.s1.script)
    &&& extends(l.script, l.p.r1.script)
    &&& followed_by(l.script, l.hd(), l.p.c1)
    &&& followed_by(l.script, l.body(), l.p.s1)
    &&& followed_by(l.script, l.out(), l.p.r1)
    &&& l.hd().cx.slots == l.st.cx.slots
    &&& slots_kept(l.st, l.p.c1, l.seen)
    &&& slots_kept(l.st, l.body(), l.seen)
    &&& slots_kept(l.st, l.p.s1, l.seen)
    &&& slots_kept(l.st, l.out(), l.seen)
    &&& slots_kept(l.st, l.end(), l.seen)
    &&& l.end().cx.slots == l.p.r1.cx.slots
    &&& l.end().script == l.p.r1.script
    &&& of_comp(l.st, l.fuel, l.comp)->Ok_0.1 == l.p.v
}

#[verifier::rlimit(60)]
#[verifier::spinoff_prover]
proof fn lemma_round_laid(l: Round, m: Machine)
    requires
        l.comp is Loop,
        fit(l.st),
        l.held.subset_of(l.seen),
        spoken(l.comp, l.held, l.seen),
        l.p.of(l.st, l.fuel, l.comp),
        countable(l.end()),
        extends(l.script, l.end().script),
        followed_by(l.script, l.st, l.end()),
        m.args.len() == 0,
    ensures
        round_laid(l),
{
    let st = l.st;
    let fuel = l.fuel;
    let comp = l.comp;
    let p = l.p;
    let script = l.script;
    let seen = l.seen;
    let n = st.script.len() as int;
    let k = comp->Loop_vars@.len() as int;
    let (hd, hh) = p.head(st, comp);
    let body = l.body();
    let out = l.out();
    lemma_comp_sized(st, fuel, comp, l.held, seen);
    lemma_comp_woven(st, fuel, comp, l.held, seen, m);
    lemma_loop_woven(st, fuel, comp, p, l.held, seen, m);
    lemma_loop_around(st, fuel, comp, p, script);
    lemma_loop_len(st, fuel, comp, p);
    lemma_loop_apt(st, fuel, comp, p, l.held, seen);
    lemma_opened(script, p.r1.script, p.r1.script.len() as int);
    assert(followed(script, n, p.r1.script.len() as int));
    lemma_loop_apart(
        script,
        n,
        k,
        p.c1.script.len() as int,
        p.s1.script.len() as int,
        p.r1.script.len() as int,
        p.cv,
        p.inits,
        p.nexts,
        st.cx.block,
        p.s1.cx.block,
    );
    lemma_opened(script, p.c1.script, p.c1.script.len() as int);
    lemma_opened(script, p.s1.script, p.s1.script.len() as int);
    lemma_block_sized(hd, fuel, target(comp->cond), seen, seen);
    crate::currying::lemma_plain_kept(hd, body.in_env(hh.env));
    lemma_steps_sized(body, fuel, comp->steps, hh, 0, Seq::empty(), seen);
    crate::currying::lemma_plain_kept(hd, out);
    lemma_block_sized(out, fuel, target(comp->result), seen, seen);
    lemma_slots_then(st, p.c1, p.s1, seen);
    lemma_slots_then(st, p.s1, p.r1, seen);
}

/// The slots of mutable locals that are in scope around a block.
proof fn lemma_slots_behind(
    st: St,
    part: St,
    end: St,
    mid: Machine,
    after: Machine,
    h: Held,
    w: World,
    block: World,
    seen: Names,
    script: Seq<Cmd>,
    e: int,
)
    requires
        slots_ready(part),
        part.script.len() <= e,
        slots_kept(st, part, seen),
        slots_kept(st, end, seen),
        w.cells.dom().subset_of(seen),
        slots_hold(part, mid, block.cells, h, script),
        goes_on(mid, after, e),
        after.store() == mid.store(),
    ensures
        slots_hold(end, after, w.behind(block).cells, h, script),
        w.behind(block).cells.dom().subset_of(seen),
{
    let cells = w.behind(block).cells;
    assert forall|y: Seq<char>| #[trigger] cells.dom().contains(y) implies block.cells.dom().contains(y)
        && slot_at(end, after, y) == slot_at(part, mid, y) && end.cx.slots.get(y) is Some
        && cells[y] == block.cells[y] && seen.contains(y) by {
        assert(w.cells.dom().contains(y));
        assert(seen.contains(y));
        assert(part.cx.slots.get(y) == st.cx.slots.get(y));
        assert(end.cx.slots.get(y) == st.cx.slots.get(y));
        assert(ready(part, crate::standing::slot_of(part, y)));
    }
}

/// From its head on a loop does what it means.
#[verifier::rlimit(80)]
#[verifier::spinoff_prover]
proof fn lemma_laps_do(
    l: Round,
    vals: Seq<Value>,
    words: Seq<u64>,
    w: World,
    turns: nat,
    laps: nat,
    m: Machine,
    h: Held,
) -> (r: Did)
    requires
        round_laid(l),
        in_force(l.st, m, l.env, w.cells, h, l.seen, l.script),
        accumulated(l.st, l.comp, words, m),
        vals.len() == l.comp->Loop_vars@.len(),
        all_stand(vals, words, m.mem, h.closures, l.script),
        running(m, w, l.script),
    ensures
        laps_do(
            l.script,
            l.st.script.len() as int + 5 + 2 * l.comp->Loop_vars@.len(),
            l.st.script.len() as int,
            m,
            h,
            l.end(),
            l.p.v,
            evaluate_loop(l.comp, l.env, vals, w, turns, laps),
            l.seen,
            r,
        ),
    decreases turns, 1int, l.comp, laps + 1,
{
    let comp = l.comp;
    let p = l.p;
    let script = l.script;
    let n = l.st.script.len() as int;
    let k = comp->Loop_vars@.len() as int;
    let c = p.c1.script.len() as int;
    let s = p.s1.script.len() as int;
    let e = p.r1.script.len() as int;
    let inside = loop_inside(comp, vals, l.env);
    let pc = n + 5 + 2 * k;
    lemma_loop_force(l.st, l.fuel, comp, p, l.env, vals, words, w.cells, m, h, l.seen, script);
    let cond = target(comp->cond);
    let r1 = lemma_block_does(l.hd(), l.fuel, cond, inside, w, turns, l.seen, l.seen, script, m, h);
    let tested = evaluate_block(cond, inside, w, turns);
    match tested {
        Ends::Value(Value::Word(x), w1) => {
            let a1 = r1.after;
            let w2 = w.behind(w1);
            let a2 = lemma_loop_tested(
                script, n, k, c, s, e, p.cv, p.inits, p.nexts, l.st.cx.block, p.s1.cx.block, a1,
            );
            assert(goes_on(a1, a2, c));
            assert(a2.store() == a1.store());
            lemma_goes_on(m, a1, a2, pc, c);
            lemma_kept_self(a1.store(), r1.h);
            let to = if x != 0 {
                c + 3
            } else {
                s + k + 2
            };
            lemma_run_leads(script, c, a1, to, a2);
            lemma_leads(script, pc, m, c, a1, r1.j, to, a2, 0);
            lemma_slots_behind(l.st, p.c1, l.body(), a1, a2, r1.h, w, w1, l.seen, script, c);
            lemma_slots_behind(l.st, p.c1, l.out(), a1, a2, r1.h, w, w1, l.seen, script, c);
            assert(vars_hold(l.body(), a2, inside, r1.h, script)) by {
                lemma_vars_on(l.hd(), l.body(), m, h, a2, r1.h, inside, script);
            }
            assert(vars_hold(l.out(), a2, inside, r1.h, script)) by {
                lemma_vars_on(l.hd(), l.out(), m, h, a2, r1.h, inside, script);
            }
            assert(goes_on(m, a2, n));
            if x == 0 {
                let result = target(comp->result);
                assert(in_force(l.out(), a2, inside, w2.cells, r1.h, l.seen, script));
                let r2 = lemma_block_does(
                    l.out(),
                    l.fuel,
                    result,
                    inside,
                    w2,
                    turns,
                    l.seen,
                    l.seen,
                    script,
                    a2,
                    r1.h,
                );
                let ends = evaluate_block(result, inside, w2, turns);
                if let Ends::Value(val, w3) = ends {
                    lemma_slots_behind(
                        l.st, p.r1, l.end(), r2.after, r2.after, r2.h, w2, w3, l.seen, script, e,
                    );
                    lemma_goes_on(m, a2, r2.after, n, s + k + 2);
                    assert(laps_do(
                        script,
                        to,
                        n,
                        a2,
                        r1.h,
                        l.end(),
                        p.v,
                        leaves(ends, w2),
                        l.seen,
                        r2,
                    ));
                }
                lemma_laps_after(
                    script, pc, n, m, h, to, a2, r1.j, r1.h, l.end(), p.v, leaves(ends, w2), l.seen, r2,
                )
            } else if laps == 0 {
                r1
            } else {
                assert(in_force(l.body(), a2, inside, w2.cells, r1.h, l.seen, script));
                let q = lemma_steps_do(
                    l,
                    l.body(),
                    0,
                    Seq::empty(),
                    Seq::empty(),
                    inside,
                    w2,
                    turns,
                    a2,
                    r1.h,
                );
                match evaluate_steps(comp->steps, 0, inside, w2, turns) {
                    Ok((next, w3)) => {
                        let a3 = q.after;
                        let fresh = Seq::new(p.nexts.len(), |j: int| a3.value(p.nexts[j]));
                        assert(Seq::<Value>::empty() + next =~= next);
                        lemma_loop_back(
                            script, n, k, c, s, e, p.cv, p.inits, p.nexts, l.st.cx.block, p.s1.cx.block, a3,
                        );
                        let a4 = lemma_loop_again(
                            script,
                            n,
                            k,
                            c,
                            s,
                            e,
                            p.cv,
                            p.inits,
                            p.nexts,
                            l.st.cx.block,
                            p.s1.cx.block,
                            fresh,
                            a3,
                        );
                        lemma_back_leads(script, s, a3, n + 4, a3.left(p.s1.cx.block));
                        lemma_run_leads(script, n + 4, a3.left(p.s1.cx.block), pc, a4);
                        lemma_leads(script, s, a3, n + 4, a3.left(p.s1.cx.block), 1, pc, a4, 0);
                        lemma_leads(script, to, a2, s, a3, q.j, pc, a4, 1);
                        lemma_leads(script, pc, m, to, a2, r1.j, pc, a4, q.j + 1);
                        lemma_goes_on(m, a2, a3, n, c + 3);
                        assert(goes_on(a3, a4, n));
                        lemma_goes_on(m, a3, a4, n, n);
                        assert(a4.store() == a3.store());
                        lemma_kept(m.store(), h, a2.store(), r1.h, a3.store(), q.h);
                        lemma_round_force(l, m, h, a4, q.h, a3, w.cells, w3.cells);
                        let r4 = lemma_laps_do(
                            l,
                            next,
                            fresh,
                            w3,
                            turns,
                            (laps - 1) as nat,
                            a4,
                            q.h,
                        );
                        lemma_laps_after(
                            script,
                            pc,
                            n,
                            m,
                            h,
                            pc,
                            a4,
                            r1.j + (q.j + 1),
                            q.h,
                            l.end(),
                            p.v,
                            evaluate_loop(comp, l.env, next, w3, turns, (laps - 1) as nat),
                            l.seen,
                            r4,
                        )
                    },
                    Err(ends) => {
                        if ends is Trap {
                            lemma_leads_to_trap(script, pc, m, to, a2, r1.j, q.j);
                        }
                        Did { after: a2, j: r1.j + q.j, h: r1.h }
                    },
                }
            }
        },
        _ => r1,
    }
}

/// What is in force around a loop when its next turn begins.
proof fn lemma_round_force(
    l: Round,
    m: Machine,
    h: Held,
    after: Machine,
    now: Held,
    mid: Machine,
    before: Env,
    cells: Env,
)
    requires
        round_laid(l),
        in_force(l.st, m, l.env, before, h, l.seen, l.script),
        goes_on(m, after, l.st.script.len() as int),
        kept(m.store(), h, after.store(), now),
        after.store() == mid.store(),
        goes_on(mid, after, l.st.script.len() as int),
        slots_hold(l.p.s1, mid, cells, now, l.script),
        cells.dom().subset_of(l.seen),
    ensures
        in_force(l.st, after, l.env, cells, now, l.seen, l.script),
{
    lemma_vars_on(l.st, l.st, m, h, after, now, l.env, l.script);
    assert(slots_hold(l.st, after, cells, now, l.script)) by {
        assert forall|y: Seq<char>| #[trigger] cells.dom().contains(y) implies slot_at(l.st, after, y)
            == slot_at(l.p.s1, mid, y) && l.st.cx.slots.get(y) is Some by {
            assert(l.seen.contains(y));
            assert(l.p.s1.cx.slots.get(y) == l.st.cx.slots.get(y));
            assert(ready(l.st, crate::standing::slot_of(l.st, y)));
        }
    }
}

/// The steps of a loop from position `i` on.
#[verifier::rlimit(80)]
#[verifier::spinoff_prover]
proof fn lemma_steps_do(
    l: Round,
    st: St,
    i: nat,
    done: Seq<Val>,
    vals: Seq<Value>,
    inside: Env,
    w: World,
    turns: nat,
    m: Machine,
    h: Held,
) -> (r: Did)
    requires
        round_laid(l),
        i <= l.comp->steps.len(),
        done.len() == i,
        vals.len() == i,
        in_force(
            st.in_env(l.hd().cx.env),
            m,
            inside,
            w.cells,
            h,
            l.seen,
            l.script,
        ),
        slots_kept(l.st, st, l.seen),
        forall|j: int|
            0 <= j < i ==> ready(st, #[trigger] done[j]) && stands_for(
                vals[j],
                m.value(done[j]),
                m.mem,
                h.closures,
                l.script,
            ),
        of_steps(st, l.fuel, l.comp->steps, l.p.head(l.st, l.comp).1, i, done) == Ok::<
            (St, Seq<Val>),
            CodegenError,
        >((l.p.s1, l.p.nexts)),
        followed_by(l.script, st, l.p.s1),
        running(m, w, l.script),
    ensures
        match evaluate_steps(l.comp->steps, i, inside, w, turns) {
            Ok((next, later)) => {
                &&& leads_in(
                    l.script,
                    st.script.len() as int,
                    m,
                    l.p.s1.script.len() as int,
                    r.after,
                    r.j,
                )
                &&& goes_on(m, r.after, st.script.len() as int)
                &&& kept(m.store(), h, r.after.store(), r.h)
                &&& slots_hold(l.p.s1, r.after, later.cells, r.h, l.script)
                &&& later.cells.dom().subset_of(l.seen)
                &&& spacious(m.room, r.after.store(), later.left)
                &&& (vals + next).len() == l.p.nexts.len()
                &&& forall|j: int|
                    0 <= j < l.p.nexts.len() ==> stands_for(
                        (vals + next)[j],
                        r.after.value(#[trigger] l.p.nexts[j]),
                        r.after.mem,
                        r.h.closures,
                        l.script,
                    )
            },
            Err(ends) => ends is Trap ==> traps_in(l.script, st.script.len() as int, m, r.j),
        },
        evaluate_steps(l.comp->steps, i, inside, w, turns) matches Err(ends) ==> !(ends is Value),
    decreases turns, 1int, l.comp->steps, l.comp->steps.len() - i,
{
    let steps = l.comp->steps;
    let hh = l.p.head(l.st, l.comp).1;
    let script = l.script;
    let n = st.script.len() as int;
    lemma_of_steps(st, l.fuel, steps, hh, i, done);
    if i >= steps.len() {
        lemma_kept_self(m.store(), h);
        lemma_run_leads(script, n, m, n, m);
        assert(vals + Seq::<Value>::empty() =~= vals);
        assert(slots_hold(st, m, w.cells, h, script)) by {
            let begun = st.in_env(l.hd().cx.env);
            assert forall|y: Seq<char>| #[trigger] w.cells.dom().contains(y) implies slot_at(st, m, y)
                == slot_at(begun, m, y) by {}
        }
        Did { after: m, j: 0, h }
    } else {
        let begun = st.in_env(hh.env);
        let step = steps[i as int];
        lemma_spoken_step(steps, steps.len() as nat, i as int, l.seen);
        let (mid_st, v) = of_ir(begun, l.fuel, step)->Ok_0;
        let more = done.push(v);
        lemma_block_sized(begun, l.fuel, step, l.seen, l.seen);
        crate::currying::lemma_plain_kept(begun, mid_st.in_env(hh.env));
        lemma_steps_sized(mid_st, l.fuel, steps, hh, i + 1, more, l.seen);
        lemma_block_woven(begun, l.fuel, step, l.seen, l.seen, m);
        let next_st = mid_st.in_env(hh.env);
        crate::shape::lemma_env_kept(begun, next_st);
        assert(fit(next_st));
        lemma_steps_woven_from(l, mid_st, i + 1, more, st, m);
        lemma_extends(mid_st.script, l.p.s1.script, script);
        lemma_followed(script, begun, mid_st, l.p.s1);
        let r1 = lemma_block_does(
            begun,
            l.fuel,
            step,
            inside,
            w,
            turns,
            l.seen,
            l.seen,
            script,
            m,
            h,
        );
        let ends = evaluate_block(step, inside, w, turns);
        match ends {
            Ends::Value(val, wb) => {
                let w2 = w.behind(wb);
                let k = mid_st.script.len() as int;
                lemma_slots_then(l.st, st, mid_st, l.seen);
                lemma_slots_behind(
                    l.st, mid_st, next_st, r1.after, r1.after, r1.h, w, wb, l.seen, script, k,
                );
                lemma_vars_on(begun, next_st, m, h, r1.after, r1.h, inside, script);
                let known = vals.push(val);
                assert forall|j: int| 0 <= j < i + 1 implies ready(mid_st, #[trigger] more[j]) && stands_for(
                    known[j],
                    r1.after.value(more[j]),
                    r1.after.mem,
                    r1.h.closures,
                    script,
                ) by {
                    if j < i {
                        assert(more[j] == done[j] && known[j] == vals[j]);
                        assert(ready(st, done[j]));
                        assert(r1.after.value(done[j]) == m.value(done[j]));
                        lemma_stands_on(
                            vals[j],
                            m.value(done[j]),
                            m.store(),
                            h,
                            r1.after.store(),
                            r1.h,
                            script,
                        );
                    }
                }
                let r2 = lemma_steps_do(
                    l,
                    mid_st,
                    i + 1,
                    more,
                    known,
                    inside,
                    w2,
                    turns,
                    r1.after,
                    r1.h,
                );
                match evaluate_steps(steps, i + 1, inside, w2, turns) {
                    Ok((next, later)) => {
                        assert(vals + (seq![val] + next) =~= known + next);
                        lemma_leads(
                            script,
                            n,
                            m,
                            k,
                            r1.after,
                            r1.j,
                            l.p.s1.script.len() as int,
                            r2.after,
                            r2.j,
                        );
                        lemma_goes_on(m, r1.after, r2.after, n, k);
                        lemma_kept(m.store(), h, r1.after.store(), r1.h, r2.after.store(), r2.h);
                    },
                    Err(e) => {
                        if e is Trap {
                            lemma_leads_to_trap(script, n, m, k, r1.after, r1.j, r2.j);
                        }
                    },
                }
                Did { after: r2.after, j: r1.j + r2.j, h: r2.h }
            },
            _ => r1,
        }
    }
}

/// The rest of a loop's steps is laid behind what was lowered.
proof fn lemma_steps_woven_from(l: Round, st: St, i: nat, done: Seq<Val>, before: St, m: Machine)
    requires
        round_laid(l),
        m.args.len() == 0,
        i <= l.comp->steps.len(),
        done.len() == i,
        fit(st.in_env(l.p.head(l.st, l.comp).1.env)),
        before.script.len() <= st.script.len(),
        of_steps(st, l.fuel, l.comp->steps, l.p.head(l.st, l.comp).1, i, done) == Ok::<
            (St, Seq<Val>),
            CodegenError,
        >((l.p.s1, l.p.nexts)),
        forall|j: int| 0 <= j < i ==> ready(st, #[trigger] done[j]),
    ensures
        laid_in(st, l.p.s1),
        countable(st),
        extends(l.p.s1.script, st.script),
{
    let steps = l.comp->steps;
    let hh = l.p.head(l.st, l.comp).1;
    lemma_steps_sized(st, l.fuel, steps, hh, i, done, l.seen);
    lemma_steps_woven(st, l.fuel, steps, hh, i, done, l.seen, m);
}

/// A binding does what it means.
proof fn lemma_bound_does(
    st: St,
    fuel: nat,
    name: String,
    comp: Comp,
    env: Env,
    w: World,
    turns: nat,
    held: Names,
    seen: Names,
    script: Seq<Cmd>,
    m: Machine,
    h: Held,
) -> (r: Did)
    requires
        in_force(st, m, env, w.cells, h, seen, script),
        held.subset_of(seen),
        running(m, w, script),
        spoken(comp, held, seen),
        of_bound(st, fuel, name, comp) is Ok,
        countable(of_bound(st, fuel, name, comp)->Ok_0.0),
        extends(script, of_bound(st, fuel, name, comp)->Ok_0.0.script),
        followed_by(script, st, of_bound(st, fuel, name, comp)->Ok_0.0),
    ensures
        does(
            script,
            st.script.len() as int,
            m,
            h,
            of_bound(st, fuel, name, comp)->Ok_0.0,
            of_bound(st, fuel, name, comp)->Ok_0.1,
            evaluate_bound(name, comp, env, w, turns),
            seen_with(comp, seen),
            r,
        ),
    decreases turns, 1int, comp, turns + 4,
{
    if names_itself(comp, name@) {
        lemma_again(comp, held, seen);
        lemma_closing_does(st, fuel, Some(name), comp, env, w, seen, script, m, h)
    } else {
        lemma_comp_does(st, fuel, comp, env, w, turns, held, seen, script, m, h)
    }
}

/// A block does what it means.
#[verifier::rlimit(30)]
proof fn lemma_block_does(
    st: St,
    fuel: nat,
    ir: Ir,
    env: Env,
    w: World,
    turns: nat,
    held: Names,
    seen: Names,
    script: Seq<Cmd>,
    m: Machine,
    h: Held,
) -> (r: Did)
    requires
        in_force(st, m, env, w.cells, h, seen, script),
        held.subset_of(seen),
        running(m, w, script),
        spoken_block(ir, held, seen),
        of_ir(st, fuel, ir) is Ok,
        countable(of_ir(st, fuel, ir)->Ok_0.0),
        extends(script, of_ir(st, fuel, ir)->Ok_0.0.script),
        followed_by(script, st, of_ir(st, fuel, ir)->Ok_0.0),
    ensures
        does(
            script,
            st.script.len() as int,
            m,
            h,
            of_ir(st, fuel, ir)->Ok_0.0,
            of_ir(st, fuel, ir)->Ok_0.1,
            evaluate_block(ir, env, w, turns),
            Set::full(),
            r,
        ),
    decreases turns, 1int, ir, bind_count(ir) + 1,
{
    let n = st.script.len() as int;
    let (end, v) = of_ir(st, fuel, ir)->Ok_0;
    lemma_block_is(st, fuel, ir, held, seen);
    match ir {
        Ir::Block { .. } => lemma_rest_does(st, fuel, ir, 0, env, w, turns, held, seen, script, m, h),
        Ir::Let { name, ty, layout, comp, rest, .. } => {
            let c = target(comp);
            let later = seen_with(c, seen);
            let (mid_st, x) = of_bound(st, fuel, name, c)->Ok_0;
            let next = mid_st.bind(name, x, ty, layout);
            lemma_bound_sized(st, fuel, name, ty, layout, c, held, seen);
            lemma_block_sized(next, fuel, target(rest), held, later);
            lemma_bound_woven(st, fuel, name, ty, layout, c, held, seen, m);
            lemma_block_woven(next, fuel, target(rest), held, later, m);
            lemma_extends(next.script, end.script, script);
            lemma_followed(script, st, next, end);
            assert(followed_by(script, st, mid_st));
            let r1 = lemma_bound_does(st, fuel, name, c, env, w, turns, held, seen, script, m, h);
            let ends = evaluate_bound(name, c, env, w, turns);
            if let Ends::Value(val, w2) = ends {
                lemma_next_force(
                    st, mid_st, x, name, ty, layout, m, h, env, w.cells, seen, val, w2, later, script, r1,
                );
                let inner = env.insert(name@, val);
                let r2 = lemma_block_does(
                    next,
                    fuel,
                    target(rest),
                    inner,
                    w2,
                    turns,
                    held,
                    later,
                    script,
                    r1.after,
                    r1.h,
                );
                lemma_does_after(
                    script,
                    n,
                    m,
                    h,
                    next.script.len() as int,
                    r1.after,
                    r1.j,
                    r1.h,
                    end,
                    v,
                    evaluate_block(target(rest), inner, w2, turns),
                    Set::full(),
                    r2,
                )
            } else {
                r1
            }
        },
        Ir::Ret { comp, .. } => lemma_comp_does(
            st,
            fuel,
            target(comp),
            env,
            w,
            turns,
            held,
            seen,
            script,
            m,
            h,
        ),
    }
}

#[verifier::rlimit(30)]
proof fn lemma_rest_does(
    st: St,
    fuel: nat,
    ir: Ir,
    i: nat,
    env: Env,
    w: World,
    turns: nat,
    held: Names,
    seen: Names,
    script: Seq<Cmd>,
    m: Machine,
    h: Held,
) -> (r: Did)
    requires
        in_force(st, m, env, w.cells, h, seen, script),
        held.subset_of(seen),
        running(m, w, script),
        ir is Block,
        spoken_rest(ir, i, held, seen),
        of_rest(st, fuel, ir, i) is Ok,
        countable(of_rest(st, fuel, ir, i)->Ok_0.0),
        extends(script, of_rest(st, fuel, ir, i)->Ok_0.0.script),
        followed_by(script, st, of_rest(st, fuel, ir, i)->Ok_0.0),
    ensures
        does(
            script,
            st.script.len() as int,
            m,
            h,
            of_rest(st, fuel, ir, i)->Ok_0.0,
            of_rest(st, fuel, ir, i)->Ok_0.1,
            evaluate_rest(ir, i, env, w, turns),
            Set::full(),
            r,
        ),
    decreases turns, 1int, ir, bind_count(ir) - i,
{
    let n = st.script.len() as int;
    let (end, v) = of_rest(st, fuel, ir, i)->Ok_0;
    let binds = ir->Block_binds;
    lemma_rest_is(st, fuel, ir, i, held, seen);
    if i < binds.len() {
        let b = binds[i as int];
        let c = target(b.comp);
        let later = seen_with(c, seen);
        let (mid_st, x) = of_bound(st, fuel, b.name, c)->Ok_0;
        let next = mid_st.bind(b.name, x, b.ty, b.layout);
        lemma_bound_sized(st, fuel, b.name, b.ty, b.layout, c, held, seen);
        lemma_rest_sized(next, fuel, ir, i + 1, held, later);
        lemma_bound_woven(st, fuel, b.name, b.ty, b.layout, c, held, seen, m);
        lemma_rest_woven(next, fuel, ir, i + 1, held, later, m);
        lemma_extends(next.script, end.script, script);
        lemma_followed(script, st, next, end);
        assert(followed_by(script, st, mid_st));
        let r1 = lemma_bound_does(st, fuel, b.name, c, env, w, turns, held, seen, script, m, h);
        let ends = evaluate_bound(b.name, c, env, w, turns);
        if let Ends::Value(val, w2) = ends {
            lemma_next_force(
                st, mid_st, x, b.name, b.ty, b.layout, m, h, env, w.cells, seen, val, w2, later, script,
                r1,
            );
            let inner = env.insert(b.name@, val);
            let r2 = lemma_rest_does(
                next,
                fuel,
                ir,
                i + 1,
                inner,
                w2,
                turns,
                held,
                later,
                script,
                r1.after,
                r1.h,
            );
            lemma_does_after(
                script,
                n,
                m,
                h,
                next.script.len() as int,
                r1.after,
                r1.j,
                r1.h,
                end,
                v,
                evaluate_rest(ir, i + 1, inner, w2, turns),
                Set::full(),
                r2,
            )
        } else {
            r1
        }
    } else {
        lemma_comp_does(
            st,
            fuel,
            target(ir->Block_comp),
            env,
            w,
            turns,
            held,
            seen,
            script,
            m,
            h,
        )
    }
}

// ── what closures answer ─────────────────────────────────────────────────
/// A function answers to its arguments one by one what it means.
proof fn lemma_chain_answers(
    f: Value,
    clos: u64,
    vals: Seq<Value>,
    words: Seq<u64>,
    w: World,
    turns: nat,
    s: Store,
    h: Held,
    code: Code,
    room: Room,
    script: Seq<Cmd>,
) -> (now: Held)
    requires
        of_script(code, room, script),
        spacious(room, s, w.left),
        h.sound(s.mem),
        stands_for(f, clos, s.mem, h.closures, script),
        all_stand(vals, words, s.mem, h.closures, script),
    ensures
        answered(
            chained(false, code, clos, words, s),
            applies(f, vals, w, turns),
            s,
            h,
            now,
            room,
            script,
        ),
    decreases turns, 0int, f, 1nat,
{
    if vals.len() == 0 {
        lemma_kept_self(s, h.called());
        h.called()
    } else if turns == 0 || f is Word {
        h
    } else {
        let c = f->Fun_0;
        let inner = evaluate_block(lam_body(c.lam), c.inside(vals[0]), w.called(), (turns - 1) as nat);
        let answer = applied(false, code, clos, words[0], s);
        let first = lemma_apply_answers(c, clos, vals[0], words[0], w, turns, s, h, code, room, script);
        match inner {
            Ends::Value(v, body) => {
                let next = answer->Word_0;
                let s1 = answer->Word_1;
                let rest = vals.drop_first();
                let more = words.drop_first();
                let w1 = World { cells: w.cells, left: body.left };
                assert(all_stand(rest, more, s1.mem, first.closures, script)) by {
                    assert forall|k: int| 0 <= k < rest.len() implies stands_for(
                        #[trigger] rest[k],
                        more[k],
                        s1.mem,
                        first.closures,
                        script,
                    ) by {
                        assert(rest[k] == vals[k + 1] && more[k] == words[k + 1]);
                        lemma_stands_on(vals[k + 1], words[k + 1], s, h.called(), s1, first, script);
                    }
                }
                let last = lemma_chain_answers(
                    v,
                    next,
                    rest,
                    more,
                    w1,
                    (turns - 1) as nat,
                    s1,
                    first,
                    code,
                    room,
                    script,
                );
                let ends = applies(v, rest, w1, (turns - 1) as nat);
                assert(applies(f, vals, w, turns) == ends);
                assert(chained(false, code, clos, words, s) == chained(false, code, next, more, s1));
                if let Ends::Value(val, w2) = ends {
                    let end = chained(false, code, next, more, s1)->Word_1;
                    lemma_kept_calls(s, h, s1, first, end, last);
                }
                last
            },
            _ => first,
        }
    }
}

/// A closure answers to one argument what its lambda means.
#[verifier::rlimit(90)]
#[verifier::spinoff_prover]
proof fn lemma_apply_answers(
    c: Closure,
    clos: u64,
    val: Value,
    arg: u64,
    w: World,
    turns: nat,
    s: Store,
    h: Held,
    code: Code,
    room: Room,
    script: Seq<Cmd>,
) -> (now: Held)
    requires
        turns > 0,
        of_script(code, room, script),
        spacious(room, s, w.left),
        h.sound(s.mem),
        stands_for(Value::Fun(c), clos, s.mem, h.closures, script),
        stands_for(val, arg, s.mem, h.closures, script),
    ensures
        answered(
            applied(false, code, clos, arg, s),
            evaluate_block(lam_body(c.lam), c.inside(val), w.called(), (turns - 1) as nat),
            s,
            h,
            now,
            room,
            script,
        ),
    decreases turns, 0int, Value::Fun(c), 0nat,
{
    let (st, fuel, p, seen) = lemma_standing(c, clos, s.mem, h.closures, script);
    let m = called(st.here(), seq![clos, arg], s, code, room);
    let (q, r) = lemma_code_funs(st, fuel, c, p, seen, script, m);
    let vals = seq![val];
    let words = seq![arg];
    assert(all_stand(vals, words, s.mem, h.closures, script));
    let b = lemma_fun_answers(
        st,
        fuel,
        c,
        p.caps,
        q,
        seen,
        script,
        clos,
        vals,
        words,
        w.left,
        (turns - 1) as nat,
        s,
        h,
        code,
        room,
    );
    assert(seq![clos] + words =~= seq![clos, arg]);
    let names = names_of(q.params);
    assert(names =~= seq![lam_param(c.lam).name@]);
    assert(with_values(names, vals, 1, c.around()) == c.inside(val)) by {
        reveal_with_fuel(with_values, 2);
    }
    assert(w.called() == World { cells: Map::empty(), left: w.left });
    assert(slot_of(false, s, clos, 0) == st.here()) by {
        assert(word(clos + 0 * 8) == clos);
    }
    let ends = evaluate_block(lam_body(c.lam), c.inside(val), w.called(), (turns - 1) as nat);
    lemma_comes_answered(st.here(), seq![clos, arg], s, code, room, h, ends, b, script);
    b.h
}

/// A call with all arguments at once answers what the function means.
proof fn lemma_picked_answers(
    f: Value,
    clos: u64,
    vals: Seq<Value>,
    words: Seq<u64>,
    w: World,
    turns: nat,
    s: Store,
    h: Held,
    code: Code,
    room: Room,
    script: Seq<Cmd>,
) -> (now: Held)
    requires
        vals.len() > 0,
        of_script(code, room, script),
        spacious(room, s, w.left),
        h.sound(s.mem),
        stands_for(f, clos, s.mem, h.closures, script),
        all_stand(vals, words, s.mem, h.closures, script),
    ensures
        answered(
            picked(false, code, clos, words, s),
            applies(f, vals, w, turns),
            s,
            h,
            now,
            room,
            script,
        ),
    decreases turns, 0int, f, 2nat,
{
    let ends = applies(f, vals, w, turns);
    if slot_of(false, s, clos, 2) != words.len() {
        lemma_chain_answers(f, clos, vals, words, w, turns, s, h, code, room, script)
    } else if turns == 0 || f is Word {
        h
    } else {
        let c = f->Fun_0;
        let (st, fuel, p, seen) = lemma_standing(c, clos, s.mem, h.closures, script);
        let m = called(p.named.here(), seq![clos] + words, s, code, room);
        let (q, r) = lemma_code_funs(st, fuel, c, p, seen, script, m);
        lemma_chain(c.lam, seen);
        assert(slot_of(false, s, clos, 2) == s.mem[word(clos + 16)]) by {
            assert(clos + 2 * 8 == clos + 16);
        }
        assert(slot_of(false, s, clos, 1) == s.mem[word(clos + 8)]) by {
            assert(clos + 1 * 8 == clos + 8);
        }
        assert(all_params(c.lam).len() < u32::MAX);
        assert(all_params(c.lam).len() == vals.len());
        let left = lemma_applies_chain(c, vals, w, turns, seen);
        if ends is Open {
            h
        } else {
            lemma_less(room, s, w.left, left);
            let b = lemma_fun_answers(
                p.named,
                fuel,
                c,
                p.caps,
                r,
                seen,
                script,
                clos,
                vals,
                words,
                left,
                (turns - vals.len()) as nat,
                s,
                h,
                code,
                room,
            );
            let names = names_of(all_params(c.lam));
            let inner = evaluate_block(
                chain_body(lam_body(c.lam)),
                with_values(names, vals, vals.len(), c.around()),
                World { cells: Map::empty(), left },
                (turns - vals.len()) as nat,
            );
            let args = seq![clos] + words;
            let func = p.named.here();
            lemma_comes_alike(
                script,
                begins(func, args),
                called(func, args, s, code, room),
                h.called(),
                ends,
                inner,
                b,
            );
            lemma_comes_answered(func, args, s, code, room, h, ends, b, script);
            b.h
        }
    }
}

/// The code of a function returns what its body means.
#[verifier::rlimit(40)]
proof fn lemma_fun_answers(
    st: St,
    fuel: nat,
    c: Closure,
    caps: Seq<CaptureInfo>,
    q: FunCode,
    seen: Names,
    script: Seq<Cmd>,
    clos: u64,
    vals: Seq<Value>,
    words: Seq<u64>,
    left: nat,
    turns: nat,
    s: Store,
    h: Held,
    code: Code,
    room: Room,
) -> (b: Back)
    requires
        fun_laid(st, fuel, c, caps, q, seen, script),
        vals.len() == q.params.len(),
        all_stand(vals, words, s.mem, h.closures, script),
        captures_stand(c, caps, clos, s.mem, h.closures, script),
        of_script(code, room, script),
        spacious(room, s, left),
        h.sound(s.mem),
    ensures
        comes(
            script,
            begins(st.here(), seq![clos] + words),
            called(st.here(), seq![clos] + words, s, code, room),
            h.called(),
            evaluate_block(
                q.body,
                with_values(names_of(q.params), vals, q.params.len(), c.around()),
                World { cells: Map::empty(), left },
                turns,
            ),
            b,
        ),
    decreases turns, 3int, q.body, 0nat,
{
    let args = seq![clos] + words;
    let m = called(st.here(), args, s, code, room);
    let n = begins(st.here(), args);
    let w = World { cells: Map::empty(), left };
    let env = with_values(names_of(q.params), vals, q.params.len(), c.around());
    let now = h.called();
    let (vars, mid) = lemma_fun_begins(
        st, fuel, c, caps, q, seen, script, clos, vals, words, s, h, code, room,
    );
    lemma_fun_facts(st, fuel, c, caps, q, seen, script);
    lemma_fun_sized(st, fuel, c.own, caps, q, seen);
    lemma_fun_woven(st, fuel, c.own, caps, q, seen, m);
    let k = q.start.script.len() as int;
    lemma_run_leads(script, n, m, k, mid);
    assert(now.sound(s.mem));
    lemma_kept_self(s, now);
    let ends = evaluate_block(q.body, env, w, turns);
    match c.own {
        None => {
            let e = q.mid.script.len() as int;
            assert(extends(q.out.script, q.mid.script));
            lemma_extends(q.mid.script, q.out.script, script);
            assert(script[e] == q.out.script[e]);
            assert(followed_by(script, q.start, q.mid)) by {
                assert forall|i: int| e <= i < script.len() implies (#[trigger] script[i] matches Cmd::At {
                    block,
                } ==> block < k || e <= block || block == q.mid.cx.block) by {}
            }
            let r = lemma_block_does(q.start, fuel, q.body, env, w, turns, seen, seen, script, mid, now);
            let b = Back { j: r.j, w: r.after.value(q.v), s: r.after.store(), h: r.h };
            if let Ends::Value(v, w2) = ends {
                assert(run(script, e, r.after) == Outcome::Returned(b.w, b.s));
                assert forall|t: nat| t >= b.j implies #[trigger] runs(script, k, mid, t)
                    == Outcome::Returned(b.w, b.s) by {
                    assert(runs(script, k, mid, t) == runs(script, e, r.after, (t - r.j) as nat));
                }
            }
            assert(comes(script, k, mid, now, ends, b));
            lemma_comes_after(script, n, m, now, k, mid, 0, now, ends, b)
        },
        Some(o) => {
            let l = Lap { st, fuel, c, caps, q, seen, script, vars, m: mid };
            lemma_lap_laid(l);
            let after = lemma_lap_enters(l, words);
            let b = lemma_head_comes(l, vals, words, left, turns, after, now);
            lemma_run_leads(script, k, mid, q.first.script.len() as int, after);
            let b = lemma_comes_after(
                script,
                k,
                mid,
                now,
                q.first.script.len() as int,
                after,
                0,
                now,
                ends,
                b,
            );
            lemma_comes_after(script, n, m, now, k, mid, 0, now, ends, b)
        },
    }
}

// ── functions that are loops ─────────────────────────────────────────────
/// What is in force in the loop of a function.
pub open spec fn in_lap(
    l: Lap,
    st: St,
    env: Env,
    w: World,
    t: Tail,
    seen: Names,
    m: Machine,
    h: Held,
) -> bool {
    &&& lap_laid(l)
    &&& in_force(st, m, env, w.cells, h, seen, l.script)
    &&& goes_on(l.m, m, l.start())
    &&& l.base() + 2 * l.count() <= st.script.len()
    &&& fed_before(st, l.base(), l.count())
    &&& t == (Tail { live: t.live, ..l.q.t })
    &&& t.live ==> env.dom().contains(t.own@) && env[t.own@] == Value::Fun(l.c)
    &&& around_holds(l.q, l.c, l.m, m.mem, h.closures, l.script)
    &&& running(m, w, l.script)
}

proof fn lemma_around_on(l: Lap, m: Machine, h: Held, after: Machine, now: Held)
    requires
        around_holds(l.q, l.c, l.m, m.mem, h.closures, l.script),
        h.sound(m.mem),
        kept(m.store(), h, after.store(), now),
    ensures
        around_holds(l.q, l.c, l.m, after.mem, now.closures, l.script),
{
    let names = names_of(l.q.params);
    assert forall|x: Seq<char>| #[trigger]
        l.q.start.cx.env.get(x) matches Some(e) ==> names.contains(x) || (
        l.c.around().dom().contains(x) && stands_for(
            l.c.around()[x],
            l.m.value(e.value),
            after.mem,
            now.closures,
            l.script,
        )) by {
        if let Some(e) = l.q.start.cx.env.get(x) {
            if !names.contains(x) {
                lemma_stands_on(
                    l.c.around()[x],
                    l.m.value(e.value),
                    m.store(),
                    h,
                    after.store(),
                    now,
                    l.script,
                );
            }
        }
    }
}

proof fn lemma_lap_phis(l: Lap, st: St)
    requires
        lap_laid(l),
        l.base() + 2 * l.count() <= st.script.len(),
    ensures
        forall|j: int| 0 <= j < l.q.t.phis.len() ==> #[trigger] l.q.t.phis[j] < st.script.len(),
{
    assert forall|j: int| 0 <= j < l.q.t.phis.len() implies #[trigger] l.q.t.phis[j] < st.script.len() by {
        assert(l.q.t.phis[j] == phi_at(l.base(), j));
    }
}

/// From the head of its loop on, a function returns what its body means.
proof fn lemma_head_comes(
    l: Lap,
    vals: Seq<Value>,
    words: Seq<u64>,
    left: nat,
    turns: nat,
    m: Machine,
    h: Held,
) -> (b: Back)
    requires
        lap_laid(l),
        goes_on(l.m, m, l.start()),
        phis_hold(l.base(), l.count(), m, words),
        vals.len() == l.count(),
        all_stand(vals, words, m.mem, h.closures, l.script),
        around_holds(l.q, l.c, l.m, m.mem, h.closures, l.script),
        h.sound(m.mem),
        of_script(m.code, m.room, l.script),
        spacious(m.room, m.store(), left),
    ensures
        comes(
            l.script,
            l.q.first.script.len() as int,
            m,
            h,
            evaluate_block(
                l.q.body,
                l.inside(vals),
                World { cells: Map::empty(), left },
                turns,
            ),
            b,
        ),
    decreases turns, 2int, l.q.body, 0nat,
{
    let q = l.q;
    let w = World { cells: Map::empty(), left };
    let own = q.t.own@;
    let names = names_of(q.params);
    lemma_lap_vars(l, m, h, vals, words);
    lemma_fun_facts(l.st, l.fuel, l.c, l.caps, q, l.seen, l.script);
    lemma_values_dom(names, vals, names.len(), l.c.around());
    let k = lemma_passed_value(names, vals, words, names.len(), l.c.around(), Map::empty(), own);
    assert(!(exists|i: int| 0 <= i < names.len() && names[i] == own)) by {
        assert(!names.contains(own));
    }
    assert(l.inside(vals)[own] == Value::Fun(l.c));
    assert(q.t == (Tail { live: q.t.live, ..q.t }));
    assert(tail_followed(l.script, q.first, q.out, q.t.head)) by {
        assert(unentered(l.script, q.out.script.len() as int, q.t.head)) by {
            assert forall|i: int| q.out.script.len() <= i < l.script.len() implies #[trigger] l.script[i]
                != (Cmd::At { block: q.t.head }) by {}
        }
    }
    lemma_tail_comes(l, q.first, q.body, l.inside(vals), w, turns, q.t, l.seen, l.seen, m, h)
}

/// A block in tail position returns what it means.
#[verifier::rlimit(40)]
proof fn lemma_tail_comes(
    l: Lap,
    st: St,
    ir: Ir,
    env: Env,
    w: World,
    turns: nat,
    t: Tail,
    held: Names,
    seen: Names,
    m: Machine,
    h: Held,
) -> (b: Back)
    requires
        in_lap(l, st, env, w, t, seen, m, h),
        held.subset_of(seen),
        spoken_block(ir, held, seen),
        of_tail(st, l.fuel, ir, t) is Ok,
        tail_followed(l.script, st, of_tail(st, l.fuel, ir, t)->Ok_0, l.q.t.head),
    ensures
        comes(
            l.script,
            st.script.len() as int,
            m,
            h,
            evaluate_block(ir, env, w, turns),
            b,
        ),
    decreases turns, 1int, ir, bind_count(ir) + 1,
{
    let n = st.script.len() as int;
    let fuel = l.fuel;
    let end = of_tail(st, fuel, ir, t)->Ok_0;
    lemma_tail_is(st, fuel, ir, t, held, seen);
    lemma_lap_phis(l, st);
    match ir {
        Ir::Block { binds, comp, .. } => lemma_tail_rest_comes(
            l,
            st,
            ir,
            0,
            env,
            w,
            turns,
            t,
            held,
            seen,
            m,
            h,
        ),
        Ir::Let { name, ty, layout, comp, rest, .. } => {
            let c = target(comp);
            let later = seen_with(c, seen);
            let (mid_st, x) = of_bound(st, fuel, name, c)->Ok_0;
            let next = mid_st.bind(name, x, ty, layout);
            let t2 = t.behind(name@);
            lemma_bound_sized(st, fuel, name, ty, layout, c, held, seen);
            lemma_tail_sized(next, fuel, target(rest), t2, held, later);
            lemma_bound_woven(st, fuel, name, ty, layout, c, held, seen, m);
            lemma_tail_woven(next, fuel, target(rest), t2, held, later, m);
            lemma_tail_followed(l.script, st, next, end, l.q.t.head, t.phis);
            assert(followed_by(l.script, st, mid_st));
            let r = lemma_bound_does(st, fuel, name, c, env, w, turns, held, seen, l.script, m, h);
            let ends = evaluate_bound(name, c, env, w, turns);
            if let Ends::Value(val, w2) = ends {
                lemma_next_force(
                    st, mid_st, x, name, ty, layout, m, h, env, w.cells, seen, val, w2, later, l.script, r,
                );
                lemma_around_on(l, m, h, r.after, r.h);
                lemma_goes_on(l.m, m, r.after, l.start(), n);
                lemma_fed_on(st, next, l.base(), l.count());
                let inner = env.insert(name@, val);
                assert(t2 == (Tail { live: t2.live, ..l.q.t }));
                let b = lemma_tail_comes(
                    l,
                    next,
                    target(rest),
                    inner,
                    w2,
                    turns,
                    t2,
                    held,
                    later,
                    r.after,
                    r.h,
                );
                lemma_comes_after(
                    l.script,
                    n,
                    m,
                    h,
                    next.script.len() as int,
                    r.after,
                    r.j,
                    r.h,
                    evaluate_block(target(rest), inner, w2, turns),
                    b,
                )
            } else {
                Back { j: r.j, w: 0, s: m.store(), h }
            }
        },
        Ir::Ret { comp, .. } => lemma_tail_comp_comes(
            l,
            st,
            target(comp),
            env,
            w,
            turns,
            t,
            held,
            seen,
            m,
            h,
        ),
    }
}

#[verifier::rlimit(40)]
proof fn lemma_tail_rest_comes(
    l: Lap,
    st: St,
    ir: Ir,
    i: nat,
    env: Env,
    w: World,
    turns: nat,
    t: Tail,
    held: Names,
    seen: Names,
    m: Machine,
    h: Held,
) -> (b: Back)
    requires
        ir is Block,
        in_lap(l, st, env, w, t.behind_all(ir->Block_binds@), seen, m, h),
        t == (Tail { live: t.live, ..l.q.t }),
        held.subset_of(seen),
        spoken_rest(ir, i, held, seen),
        of_tail_rest(st, l.fuel, ir, i, t) is Ok,
        tail_followed(l.script, st, of_tail_rest(st, l.fuel, ir, i, t)->Ok_0, l.q.t.head),
    ensures
        comes(
            l.script,
            st.script.len() as int,
            m,
            h,
            evaluate_rest(ir, i, env, w, turns),
            b,
        ),
    decreases turns, 1int, ir, bind_count(ir) - i,
{
    let n = st.script.len() as int;
    let fuel = l.fuel;
    let end = of_tail_rest(st, fuel, ir, i, t)->Ok_0;
    let binds = ir->Block_binds;
    let t2 = t.behind_all(binds@);
    lemma_tail_rest_is(st, fuel, ir, i, t, held, seen);
    lemma_lap_phis(l, st);
    if i < binds.len() {
        let b = binds[i as int];
        let c = target(b.comp);
        let later = seen_with(c, seen);
        let (mid_st, x) = of_bound(st, fuel, b.name, c)->Ok_0;
        let next = mid_st.bind(b.name, x, b.ty, b.layout);
        lemma_bound_sized(st, fuel, b.name, b.ty, b.layout, c, held, seen);
        lemma_tail_rest_sized(next, fuel, ir, i + 1, t, held, later);
        lemma_bound_woven(st, fuel, b.name, b.ty, b.layout, c, held, seen, m);
        lemma_tail_rest_woven(next, fuel, ir, i + 1, t, held, later, m);
        lemma_tail_followed(l.script, st, next, end, l.q.t.head, t.phis);
        assert(followed_by(l.script, st, mid_st));
        let r = lemma_bound_does(st, fuel, b.name, c, env, w, turns, held, seen, l.script, m, h);
        let ends = evaluate_bound(b.name, c, env, w, turns);
        if let Ends::Value(val, w2) = ends {
            lemma_next_force(
                st, mid_st, x, b.name, b.ty, b.layout, m, h, env, w.cells, seen, val, w2, later, l.script,
                r,
            );
            lemma_around_on(l, m, h, r.after, r.h);
            lemma_goes_on(l.m, m, r.after, l.start(), n);
            lemma_fed_on(st, next, l.base(), l.count());
            let inner = env.insert(b.name@, val);
            assert(t2.live ==> b.name@ != t2.own@) by {
                assert(binds@[i as int].name@ == b.name@);
            }
            let back = lemma_tail_rest_comes(
                l,
                next,
                ir,
                i + 1,
                inner,
                w2,
                turns,
                t,
                held,
                later,
                r.after,
                r.h,
            );
            lemma_comes_after(
                l.script,
                n,
                m,
                h,
                next.script.len() as int,
                r.after,
                r.j,
                r.h,
                evaluate_rest(ir, i + 1, inner, w2, turns),
                back,
            )
        } else {
            Back { j: r.j, w: 0, s: m.store(), h }
        }
    } else {
        lemma_tail_comp_comes(
            l,
            st,
            target(ir->Block_comp),
            env,
            w,
            turns,
            t2,
            held,
            seen,
            m,
            h,
        )
    }
}

/// A computation in tail position returns what it means.
#[verifier::rlimit(40)]
proof fn lemma_tail_comp_comes(
    l: Lap,
    st: St,
    comp: Comp,
    env: Env,
    w: World,
    turns: nat,
    t: Tail,
    held: Names,
    seen: Names,
    m: Machine,
    h: Held,
) -> (b: Back)
    requires
        in_lap(l, st, env, w, t, seen, m, h),
        held.subset_of(seen),
        spoken(comp, held, seen),
        of_tail_comp(st, l.fuel, comp, t) is Ok,
        tail_followed(l.script, st, of_tail_comp(st, l.fuel, comp, t)->Ok_0, l.q.t.head),
    ensures
        comes(l.script, st.script.len() as int, m, h, evaluate(comp, env, w, turns), b),
    decreases turns, 1int, comp, turns + 6,
{
    let n = st.script.len() as int;
    let fuel = l.fuel;
    let end = of_tail_comp(st, fuel, comp, t)->Ok_0;
    lemma_lap_phis(l, st);
    lemma_tail_comp_sized(st, fuel, comp, t, held, seen);
    let (c, mid) = lemma_tail_comp_is(st, fuel, comp, t, held, seen);
    if calls_itself(comp, t) {
        lemma_own_call_comes(l, st, comp, env, w, turns, t, held, seen, m, h)
    } else if comp is If {
        lemma_tail_if_comes(l, st, comp, env, w, turns, t, held, seen, m, h, c, mid)
    } else {
        let (next, v) = of_comp(st, fuel, comp)->Ok_0;
        let k = next.script.len() as int;
        lemma_comp_sized(st, fuel, comp, held, seen);
        assert(next.return_cell(None, v) == Ok::<St, CodegenError>(next.put(Cmd::Ret { val: v })));
        lemma_comp_woven(st, fuel, comp, held, seen, m);
        assert(extends(end.script, next.script));
        lemma_extends(next.script, end.script, l.script);
        assert(l.script[k] == end.script[k]);
        assert(followed_by(l.script, st, next)) by {
            assert forall|i: int| k <= i < l.script.len() implies (#[trigger] l.script[i] matches Cmd::At {
                block,
            } ==> block < n || k <= block || block == next.cx.block) by {}
        }
        let r = lemma_comp_does(st, fuel, comp, env, w, turns, held, seen, l.script, m, h);
        let b = Back { j: r.j, w: r.after.value(v), s: r.after.store(), h: r.h };
        if evaluate(comp, env, w, turns) is Value {
            assert(run(l.script, k, r.after) == Outcome::Returned(b.w, b.s));
            assert forall|t: nat| t >= b.j implies #[trigger] runs(l.script, n, m, t)
                == Outcome::Returned(b.w, b.s) by {
                assert(runs(l.script, n, m, t) == runs(l.script, k, r.after, (t - r.j) as nat));
            }
        }
        b
    }
}

/// A function that calls itself last goes on at the head of its loop.
#[verifier::rlimit(40)]
proof fn lemma_own_call_comes(
    l: Lap,
    st: St,
    comp: Comp,
    env: Env,
    w: World,
    turns: nat,
    t: Tail,
    held: Names,
    seen: Names,
    m: Machine,
    h: Held,
) -> (b: Back)
    requires
        in_lap(l, st, env, w, t, seen, m, h),
        held.subset_of(seen),
        spoken(comp, held, seen),
        calls_itself(comp, t),
        of_tail_comp(st, l.fuel, comp, t) is Ok,
        tail_followed(l.script, st, of_tail_comp(st, l.fuel, comp, t)->Ok_0, l.q.t.head),
    ensures
        comes(l.script, st.script.len() as int, m, h, evaluate(comp, env, w, turns), b),
    decreases turns, 1int, comp, turns + 5,
{
    let n = st.script.len() as int;
    let _ = lemma_tail_comp_is(st, l.fuel, comp, t, held, seen);
    let atoms = call_args(comp);
    let vs = vals_of(st, atoms);
    let vals = atom_values(atoms, env);
    let words = words_of(m, vs);
    let ends = evaluate(comp, env, w, turns);
    lemma_fun_facts(l.st, l.fuel, l.c, l.caps, l.q, l.seen, l.script);
    lemma_chain(l.c.lam, l.seen);
    assert(cell_call(comp));
    assert(atoms.len() == l.count());
    assert(ends == applies(Value::Fun(l.c), vals, w, turns));
    assert(all_stand(vals, words, m.mem, h.closures, l.script)) by {
        assert forall|k: int| 0 <= k < vals.len() implies stands_for(
            #[trigger] vals[k],
            words[k],
            m.mem,
            h.closures,
            l.script,
        ) by {
            assert(no_text(atoms[k]));
            assert(st.atom(atoms[k]) is Ok);
            lemma_atom_stands(st, atoms[k], m, env, h, l.script);
        }
    }
    let left = if t.uncurried {
        lemma_applies_chain(l.c, vals, w, turns, l.seen)
    } else {
        assert(vals =~= seq![vals[0]]);
        lemma_applies_one(l.c, vals[0], w, turns);
        w.left
    };
    if ends is Open {
        Back { j: 0, w: 0, s: m.store(), h }
    } else {
        let fewer = (turns - vals.len()) as nat;
        assert(vals.len() <= turns);
        let names = names_of(l.q.params);
        let inner = evaluate_block(
            l.q.body,
            l.inside(vals),
            World { cells: Map::empty(), left },
            fewer,
        );
        assert(ends_alike(ends, inner)) by {
            if !t.uncurried {
                assert(names =~= seq![lam_param(l.c.lam).name@]);
                reveal_with_fuel(with_values, 2);
                assert(l.inside(vals) == l.c.inside(vals[0]));
            }
        }
        let after = lemma_lap_round(l, st, t, vs, m);
        lemma_less(m.room, m.store(), w.left, left);
        lemma_kept_self(m.store(), h);
        let b = lemma_head_comes(l, vals, words, left, fewer, after, h);
        let b = lemma_comes_after(
            l.script,
            n,
            m,
            h,
            l.q.first.script.len() as int,
            after,
            1,
            h,
            inner,
            b,
        );
        lemma_comes_alike(l.script, n, m, h, ends, inner, b);
        b
    }
}

/// A branch in tail position.
#[verifier::rlimit(60)]
#[verifier::spinoff_prover]
proof fn lemma_tail_if_comes(
    l: Lap,
    st: St,
    comp: Comp,
    env: Env,
    w: World,
    turns: nat,
    t: Tail,
    held: Names,
    seen: Names,
    m: Machine,
    h: Held,
    c: Val,
    mid: St,
) -> (b: Back)
    requires
        in_lap(l, st, env, w, t, seen, m, h),
        held.subset_of(seen),
        comp is If,
        spoken(comp, held, seen),
        of_tail_comp(st, l.fuel, comp, t) is Ok,
        tail_followed(l.script, st, of_tail_comp(st, l.fuel, comp, t)->Ok_0, l.q.t.head),
        st.script.len() + 8 <= u64::MAX,
        st.atom(comp->If_0) == Ok::<(St, Val), CodegenError>((st, c)),
        of_tail(tail_branch(st, c), l.fuel, *comp->If_1, t) == Ok::<St, CodegenError>(mid),
        of_tail_comp(st, l.fuel, comp, t) == of_tail(tail_turn(st, mid), l.fuel, *comp->If_2, t),
    ensures
        comes(l.script, st.script.len() as int, m, h, evaluate(comp, env, w, turns), b),
    decreases turns, 1int, comp, turns + 5,
{
    let n = st.script.len() as int;
    let fuel = l.fuel;
    let script = l.script;
    let end = of_tail_comp(st, fuel, comp, t)->Ok_0;
    let yes = target(comp->If_1);
    let no = target(comp->If_2);
    let head = tail_branch(st, c);
    let turn = tail_turn(st, mid);
    let k = mid.script.len() as int;
    lemma_tail_if_laid(l, st, comp, t, held, seen, m, c, mid);
    lemma_atom_stands(st, comp->If_0, m, env, h, script);
    let m1 = m.set(n, flag(m.value(c) != 0));
    let m2 = m1.left(opened(script, n + 3));
    assert(goes_on(m, m2, n));
    lemma_goes_on(l.m, m, m2, l.start(), n);
    assert(m2.store() == m.store());
    lemma_kept_self(m.store(), h);
    assert(m.value(constant(0)) == 0);
    assert(run(script, n, m) == run(script, n + 1, m1));
    assert(run(script, n + 1, m1) == run(script, n + 2, m1));
    assert(run(script, n + 2, m1) == run(script, n + 3, m1));
    if !(atom_value(comp->If_0, env) is Word) {
        Back { j: 0, w: 0, s: m.store(), h }
    } else if m.value(c) != 0 {
        lemma_seek_at(script, (n + 1) as u64, n + 4, n + 4);
        assert(run(script, n + 3, m1) == run(script, n + 4, m2));
        assert(run(script, n + 4, m2) == run(script, n + 5, m2));
        lemma_run_leads(script, n, m, n + 5, m2);
        lemma_force_on(st, head, m, m2, env, w.cells, h, seen, script);
        let b = lemma_tail_comes(l, head, yes, env, w, turns, t, seen, seen, m2, h);
        let inner = evaluate_block(yes, env, w, turns);
        let b = lemma_comes_after(script, n, m, h, n + 5, m2, 0, h, inner, b);
        lemma_comes_alike(script, n, m, h, leaves(inner, w), inner, b);
        b
    } else {
        lemma_seek_at(script, (n + 2) as u64, n + 4, k);
        assert(run(script, n + 3, m1) == run(script, k, m2));
        assert(run(script, k, m2) == run(script, k + 1, m2));
        lemma_run_leads(script, n, m, k + 1, m2);
        lemma_force_on(st, turn, m, m2, env, w.cells, h, seen, script);
        let b = lemma_tail_comes(l, turn, no, env, w, turns, t, seen, seen, m2, h);
        let inner = evaluate_block(no, env, w, turns);
        let b = lemma_comes_after(script, n, m, h, k + 1, m2, 0, h, inner, b);
        lemma_comes_alike(script, n, m, h, leaves(inner, w), inner, b);
        b
    }
}

/// How a branch in tail position lies in the script.
#[verifier::rlimit(40)]
proof fn lemma_tail_if_laid(
    l: Lap,
    st: St,
    comp: Comp,
    t: Tail,
    held: Names,
    seen: Names,
    m: Machine,
    c: Val,
    mid: St,
)
    requires
        lap_laid(l),
        fit(st),
        m.args.len() == 0,
        l.base() + 2 * l.count() <= st.script.len(),
        fed_before(st, l.base(), l.count()),
        t == (Tail { live: t.live, ..l.q.t }),
        held.subset_of(seen),
        comp is If,
        spoken(comp, held, seen),
        of_tail_comp(st, l.fuel, comp, t) is Ok,
        tail_followed(l.script, st, of_tail_comp(st, l.fuel, comp, t)->Ok_0, l.q.t.head),
        st.script.len() + 8 <= u64::MAX,
        of_tail(tail_branch(st, c), l.fuel, *comp->If_1, t) == Ok::<St, CodegenError>(mid),
        of_tail_comp(st, l.fuel, comp, t) == of_tail(tail_turn(st, mid), l.fuel, *comp->If_2, t),
    ensures
        ({
            let n = st.script.len() as int;
            let k = mid.script.len() as int;
            let head = tail_branch(st, c);
            let turn = tail_turn(st, mid);
            let end = of_tail_comp(st, l.fuel, comp, t)->Ok_0;
            let script = l.script;
            &&& fit(head)
            &&& fit(turn)
            &&& head.cx.env == st.cx.env
            &&& turn.cx.env == st.cx.env
            &&& head.cx.slots == st.cx.slots
            &&& slots_kept(st, turn, seen)
            &&& head.script.len() == n + 5
            &&& turn.script.len() == k + 1
            &&& n + 5 <= k
            &&& k < script.len()
            &&& script[n] == (Cmd::IntTest { pred: IntPred::Ne, a: c, b: constant(0), label: "ifcond" })
            &&& script[n + 1] is Block
            &&& script[n + 2] is Block
            &&& script[n + 3] == (Cmd::CondBr {
                cond: Val { id: Id::Reg(n as u64), ty: Ty::I1 },
                yes: (n + 1) as u64,
                no: (n + 2) as u64,
            })
            &&& script[n + 4] == (Cmd::At { block: (n + 1) as u64 })
            &&& script[k] == (Cmd::At { block: (n + 2) as u64 })
            &&& forall|i: int|
                n + 4 <= i < k ==> #[trigger] script[i] != (Cmd::At { block: (n + 2) as u64 })
            &&& tail_followed(script, head, mid, l.q.t.head)
            &&& tail_followed(script, turn, end, l.q.t.head)
            &&& fed_before(head, l.base(), l.count())
            &&& fed_before(turn, l.base(), l.count())
        }),
{
    let n = st.script.len() as int;
    let fuel = l.fuel;
    let script = l.script;
    let end = of_tail_comp(st, fuel, comp, t)->Ok_0;
    let yes = target(comp->If_1);
    let no = target(comp->If_2);
    let head = tail_branch(st, c);
    let turn = tail_turn(st, mid);
    let k = mid.script.len() as int;
    let e = end.script.len() as int;
    lemma_lap_phis(l, st);
    lemma_branch_fit(st, c);
    lemma_tail_branch(st, c);
    lemma_tail_sized(head, fuel, yes, t, seen, seen);
    crate::currying::lemma_plain_kept(st, turn);
    lemma_tail_sized(turn, fuel, no, t, seen, seen);
    lemma_tail_woven(head, fuel, yes, t, seen, seen, m);
    lemma_second_fit(st, c, mid, t.phis);
    lemma_tail_woven(turn, fuel, no, t, seen, seen, m);
    crate::weaving::lemma_slots_then(st, head, mid, seen);
    crate::weaving::lemma_slots_then(st, mid, turn, seen);
    assert(extends(turn.script, mid.script));
    lemma_extends(turn.script, end.script, script);
    lemma_extends(mid.script, turn.script, script);
    lemma_extends(head.script, mid.script, script);
    crate::tails::lemma_fed_branch(st, c, l.base(), l.count());
    lemma_fed_second(st, c, mid, l.base(), l.count(), t.phis);
    assert(script[n] == head.script[n]);
    assert(script[n + 1] == head.script[n + 1]);
    assert(script[n + 2] == head.script[n + 2]);
    assert(script[n + 3] == head.script[n + 3]);
    assert(script[n + 4] == head.script[n + 4]);
    assert(script[k] == turn.script[k]);
    assert forall|i: int| n + 4 <= i < k implies #[trigger] script[i] != (Cmd::At {
        block: (n + 2) as u64,
    }) by {
        if i >= n + 5 {
            assert(script[i] == mid.script[i]);
        }
    }
    assert(apart(script, n + 5, k)) by {
        assert forall|i: int| k <= i < script.len() implies (#[trigger] script[i] matches Cmd::At {
            block,
        } ==> block < n + 5 || k <= block) by {
            if k < i < e {
                assert(script[i] == end.script[i]);
            }
        }
    }
    assert(unentered(script, k, l.q.t.head)) by {
        assert forall|i: int| k <= i < script.len() implies #[trigger] script[i] != (Cmd::At {
            block: l.q.t.head,
        }) by {
            if k < i < e {
                assert(script[i] == end.script[i]);
            }
        }
    }
    assert(apart(script, k + 1, e)) by {
        assert forall|i: int| e <= i < script.len() implies (#[trigger] script[i] matches Cmd::At {
            block,
        } ==> block < k + 1 || e <= block) by {}
    }
}

// ── modules ──────────────────────────────────────────────────────────────
/// What a program means to its surroundings: a word, or a trap.
pub open spec fn meant_by(ends: Ends) -> Meant {
    match ends {
        Ends::Value(Value::Word(w), _) => Meant::Word(w),
        Ends::Trap => Meant::Trap,
        _ => Meant::Open,
    }
}

/// The code returns the word that was meant, whatever it stored on the way, or traps.
pub open spec fn comes_back(script: Seq<Cmd>, pc: int, m: Machine, meant: Meant) -> bool {
    match meant {
        Meant::Word(w) => exists|s: Store, j: nat| #[trigger] returns_with(script, pc, m, w, s, j),
        Meant::Trap => exists|j: nat| #[trigger] traps_in(script, pc, m, j),
        Meant::Open => true,
    }
}

/// The code returns this word and what is then stored, once it went back `j` times.
pub open spec fn returns_with(script: Seq<Cmd>, pc: int, m: Machine, w: u64, s: Store, j: nat) -> bool {
    forall|t: nat| t >= j ==> #[trigger] runs(script, pc, m, t) == Outcome::Returned(w, s)
}

/// The body of a function that needs no collector.
proof fn lemma_body_comes_back(
    st: St,
    fuel: nat,
    body: Ir,
    not_a_cell: CodegenError,
    env: Env,
    left: nat,
    turns: nat,
    m: Machine,
    h: Held,
)
    requires
        in_force(
            st,
            m,
            env,
            Map::empty(),
            h,
            Set::empty(),
            st.func_body(fuel, body, not_a_cell)->Ok_0.script,
        ),
        spoken_block(body, Set::empty(), Set::empty()),
        st.func_body(fuel, body, not_a_cell) is Ok,
        countable(st.func_body(fuel, body, not_a_cell)->Ok_0),
        of_script(m.code, m.room, st.func_body(fuel, body, not_a_cell)->Ok_0.script),
        spacious(m.room, m.store(), left),
    ensures
        comes_back(
            st.func_body(fuel, body, not_a_cell)->Ok_0.script,
            st.script.len() as int,
            m,
            meant_by(evaluate_block(body, env, World { cells: Map::empty(), left }, turns)),
        ),
        extends(st.func_body(fuel, body, not_a_cell)->Ok_0.script, st.script),
{
    let n = st.script.len() as int;
    let none: Names = Set::empty();
    let w = World { cells: Map::empty(), left };
    lemma_of_ir(st, fuel, body);
    let (end, v) = of_ir(st, fuel, body)->Ok_0;
    let e = end.script.len() as int;
    let script = st.func_body(fuel, body, not_a_cell)->Ok_0.script;
    lemma_block_sized(st, fuel, body, none, none);
    assert(script =~= end.script.push(Cmd::Ret { val: v }));
    lemma_block_woven(st, fuel, body, none, none, m);
    assert(extends(script, end.script));
    lemma_extends(st.script, end.script, script);
    assert(followed_by(script, st, end));
    let r = lemma_block_does(st, fuel, body, env, w, turns, none, none, script, m, h);
    let ends = evaluate_block(body, env, w, turns);
    match meant_by(ends) {
        Meant::Word(x) => {
            let s = r.after.store();
            assert(r.after.value(v) == x);
            assert(run(script, e, r.after) == Outcome::Returned(x, s));
            assert forall|t: nat| t >= r.j implies #[trigger] runs(script, n, m, t)
                == Outcome::Returned(x, s) by {
                assert(runs(script, n, m, t) == runs(script, e, r.after, (t - r.j) as nat));
            }
            assert(returns_with(script, n, m, x, s, r.j));
        },
        Meant::Trap => {
            assert(traps_in(script, n, m, r.j));
        },
        Meant::Open => {},
    }
}

/// What comes before code that comes back may go first.
proof fn lemma_comes_back_from(script: Seq<Cmd>, pc: int, n: int, m: Machine, meant: Meant)
    requires
        run(script, pc, m) == run(script, n, m),
        comes_back(script, n, m, meant),
    ensures
        comes_back(script, pc, m, meant),
{
    lemma_run_leads(script, pc, m, n, m);
    match meant {
        Meant::Word(w) => {
            let (s, j) = choose|s: Store, j: nat| #[trigger] returns_with(script, n, m, w, s, j);
            assert forall|t: nat| t >= j implies #[trigger] runs(script, pc, m, t)
                == Outcome::Returned(w, s) by {
                assert(runs(script, n, m, t) == Outcome::Returned(w, s));
            }
            assert(returns_with(script, pc, m, w, s, j));
        },
        Meant::Trap => {
            let j = choose|j: nat| #[trigger] traps_in(script, n, m, j);
            lemma_leads_to_trap(script, pc, m, n, m, 0, j);
        },
        Meant::Open => {},
    }
}

/// The module of a program that builds functions, calls them and themselves, and writes
/// to mutable locals, and needs no collector, returns what the program means: from the
/// entry on its code returns that word as the exit code, or traps. What is called are
/// the functions of the module, and `left` bytes of memory are there; `turns` bounds how
/// deep calls are looked at.
pub proof fn a_module_with_recursion_returns_what_its_program_means(
    ir: Ir,
    pure: Rc<Row>,
    depth: nat,
    turns: nat,
    left: nat,
    m: Machine,
)
    requires
        spoken_block(ir, Set::empty(), Set::empty()),
        !performs_gc(ir),
        program(ir, false, pure, depth) is Ok,
        program(ir, false, pure, depth)->Ok_0.len() + 64 <= u64::MAX,
        m.args.len() == 0,
        of_script(m.code, m.room, program(ir, false, pure, depth)->Ok_0),
        spacious(m.room, m.store(), left),
    ensures
        comes_back(
            program(ir, false, pure, depth)->Ok_0,
            ENTRY as int,
            m,
            meant_by(
                evaluate_block(ir, Map::empty(), World { cells: Map::empty(), left }, turns),
            ),
        ),
{
    let st = St::fresh(Seq::empty(), false, pure).open_func(FuncName::Main, 0);
    let script = program(ir, false, pure, depth)->Ok_0;
    let h = Held { closures: Set::empty(), slots: Set::empty() };
    assert(st.script.len() == 3);
    assert(st.script[2] == (Cmd::At { block: 1 }));
    assert(settled(st));
    assert(env_ready(st));
    assert(env_plain(st));
    assert(slots_ready(st));
    assert(fit(st));
    lemma_body_comes_back(
        st,
        depth,
        ir,
        CodegenError::NotAnExitCode,
        Map::empty(),
        left,
        turns,
        m,
        h,
    );
    assert(script[2] == st.script[2]);
    assert(run(script, 2, m) == run(script, 3, m));
    lemma_comes_back_from(
        script,
        2,
        3,
        m,
        meant_by(evaluate_block(ir, Map::empty(), World { cells: Map::empty(), left }, turns)),
    );
}

/// The numbers that the parameters of an exported function stand for.
pub open spec fn param_values(params: Seq<Param>, func: u64, m: Machine) -> Env {
    param_words(params, func, params.len(), m).map_values(|w: u64| Value::Word(w))
}

proof fn lemma_cells_named(st: St, func: u64, params: Seq<Param>, i: nat, m: Machine, x: Seq<char>)
    requires
        i <= params.len(),
        st.cx.env.get(x) is Some ==> param_words(params, func, i, m).dom().contains(x),
    ensures
        st.bind_cells(func, params, i).cx.env.get(x) is Some ==> param_words(
            params,
            func,
            params.len(),
            m,
        ).dom().contains(x),
        st.bind_cells(func, params, i).cx.slots == st.cx.slots,
    decreases params.len() - i,
{
    if i < params.len() {
        let p = params[i as int];
        let v = Val { id: Id::Param { func, index: i as u32 }, ty: Ty::I64 };
        lemma_cells_named(st.bind(p.name, v, p.ty, p.layout), func, params, i + 1, m, x);
    }
}

proof fn lemma_cells_plain(st: St, func: u64, params: Seq<Param>, i: nat)
    requires
        env_plain(st),
        st.cx.resume is None,
        forall|k: int| 0 <= k < params.len() ==> plain_param(#[trigger] params[k]),
    ensures
        env_plain(st.bind_cells(func, params, i)),
        st.bind_cells(func, params, i).cx.resume is None,
    decreases params.len() - i,
{
    if i < params.len() {
        let p = params[i as int];
        let v = Val { id: Id::Param { func, index: i as u32 }, ty: Ty::I64 };
        assert(plain_param(p));
        lemma_bind_plain(st, p.name, v, p.ty, p.layout);
        lemma_cells_plain(st.bind(p.name, v, p.ty, p.layout), func, params, i + 1);
    }
}

/// An exported function that builds functions, calls them and themselves, and writes to
/// mutable locals, and needs no collector, returns what its body means for the words it
/// is called with, or traps. What is called are the functions of the module, and `left`
/// bytes of memory are there.
pub proof fn an_export_with_recursion_returns_what_its_body_means(
    script: Seq<Cmd>,
    exported: LibExport,
    pure: Rc<Row>,
    depth: nat,
    turns: nat,
    left: nat,
    m: Machine,
)
    requires
        own_blocks(script, 0, script.len() as int),
        forall|k: int| 0 <= k < exported.params@.len() ==> plain_param(#[trigger] exported.params@[k]),
        spoken_block(exported.body, Set::empty(), Set::empty()),
        !performs_gc(exported.body),
        export(script, exported, false, pure, depth) is Ok,
        export(script, exported, false, pure, depth)->Ok_0.len() + 64 <= u64::MAX,
        script.len() + exported.params@.len() + 64 <= u64::MAX,
        m.args.len() == 0,
        of_script(m.code, m.room, export(script, exported, false, pure, depth)->Ok_0),
        spacious(m.room, m.store(), left),
    ensures
        comes_back(
            export(script, exported, false, pure, depth)->Ok_0,
            script.len() as int + exported.params@.len() + 2,
            m,
            meant_by(
                evaluate_block(
                    exported.body,
                    param_values(exported.params@, script.len() as u64, m),
                    World { cells: Map::empty(), left },
                    turns,
                ),
            ),
        ),
{
    let params = exported.params@;
    let func = script.len() as u64;
    let n0 = script.len() as int;
    let k = params.len() as int;
    let fresh = St::fresh(script, false, pure);
    let named = fresh.put(Cmd::Func { name: FuncName::Export(exported.symbol), ret: Ty::I64 });
    let opened_st = fresh.open_func(FuncName::Export(exported.symbol), params.len());
    let st = opened_st.bind_cells(func, params, 0);
    let words = param_words(params, func, params.len(), m);
    let env = param_values(params, func, m);
    lemma_cell_params(named, params.len());
    let held = named.cell_params(params.len());
    assert(opened_st.script =~= held.script.push(Cmd::Block { func, label: "entry" }).push(
        Cmd::At { block: held.script.len() as u64 },
    ));
    assert(env_ready(opened_st));
    assert(env_plain(opened_st));
    lemma_bind_cells(opened_st, func, params, 0, m);
    lemma_cells_plain(opened_st, func, params, 0);
    let end = export(script, exported, false, pure, depth)->Ok_0;
    assert(n0 + k + 3 == st.script.len());
    assert(settled(st)) by {
        assert(st.script[n0 + k + 2] == (Cmd::At { block: (n0 + k + 1) as u64 }));
        assert forall|i: int| 0 <= i < st.script.len() implies match #[trigger] st.script[i] {
            Cmd::At { block } => 0 <= block < st.script.len(),
            Cmd::Incoming { phi, .. } => 0 <= phi < st.script.len(),
            _ => true,
        } by {
            if i < n0 {
                assert(st.script[i] == held.script[i]);
                assert(held.script[i] == named.script[i]);
            } else if i < n0 + k + 1 {
                assert(st.script[i] == held.script[i]);
                if i == n0 {
                    assert(held.script[i] == named.script[i]);
                }
            }
        }
    }
    lemma_cells_named(opened_st, func, params, 0, m, Seq::empty());
    assert(slots_ready(st));
    assert(fit(st));
    let h = Held { closures: Set::empty(), slots: Set::empty() };
    assert(vars_hold(st, m, env, h, end)) by {
        assert forall|x: Seq<char>| #[trigger]
            st.cx.env.get(x) matches Some(e) ==> env.dom().contains(x) && stands_for(
                env[x],
                m.value(e.value),
                m.mem,
                h.closures,
                end,
            ) by {
            lemma_cells_named(opened_st, func, params, 0, m, x);
            if let Some(e) = st.cx.env.get(x) {
                assert(m.value(e.value) == words[x]);
            }
        }
    }
    lemma_body_comes_back(
        st,
        depth,
        exported.body,
        CodegenError::NotACell("library export result"),
        env,
        left,
        turns,
        m,
        h,
    );
    let pc = n0 + k + 2;
    assert(end[pc] == st.script[pc]);
    assert(run(end, pc, m) == run(end, pc + 1, m));
    lemma_comes_back_from(
        end,
        pc,
        pc + 1,
        m,
        meant_by(evaluate_block(exported.body, env, World { cells: Map::empty(), left }, turns)),
    );
}

} // verus!
