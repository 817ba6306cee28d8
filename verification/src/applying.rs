//! What is proved of calls: a call with all its arguments at once comes to what
//! applying its function to them one by one does.
use crate::closures::{abi_ty, env_ty};
use crate::error::CodegenError;
use crate::ir::{Atom, CallArg, Type};
use crate::meaning::{
    edge, extends, flag, opened, ready, run, seek, word, Answer, Code, Machine, Store,
};
use crate::programs::{atom_word, Vars};
use crate::running::{lemma_atom_word, models};
use crate::shape::{env_ready, lemma_atom, lemma_atom_ready, lemma_cell};
use crate::state::St;
use crate::target::{constant, Cmd, Conv, Id, IntPred, Ty, Val};
use std::rc::Rc;
use vstd::prelude::*;

verus! {

// ── what a call answers ──────────────────────────────────────────────────
/// A reserved cell of a closure: of the object that its handle names, or in
/// memory behind its address.
pub open spec fn slot_of(gc: bool, s: Store, clos: u64, slot: u64) -> u64 {
    if gc {
        s.objects[(clos, slot)]
    } else {
        s.mem[word(clos + slot * 8)]
    }
}

/// What a closure answers to one argument.
pub open spec fn applied(gc: bool, code: Code, clos: u64, arg: u64, s: Store) -> Answer {
    code(slot_of(gc, s, clos, 0), seq![clos, arg], s)
}

/// What a closure answers to arguments one by one: each but the last leads to the
/// closure that takes the next.
pub open spec fn chained(gc: bool, code: Code, clos: u64, args: Seq<u64>, s: Store) -> Answer
    decreases args.len(),
{
    if args.len() == 0 {
        Answer::Word(clos, s)
    } else {
        match applied(gc, code, clos, args[0], s) {
            Answer::Word(next, s) => chained(gc, code, next, args.drop_first(), s),
            other => other,
        }
    }
}

/// What the uncurried entry of a closure answers.
pub open spec fn entered(gc: bool, code: Code, clos: u64, args: Seq<u64>, s: Store) -> Answer {
    code(slot_of(gc, s, clos, 1), seq![clos] + args, s)
}

/// Two answers that come to the same: they return the same word, or neither returns.
/// What they stored on the way may differ, as a closure that takes the next argument
/// is stored somewhere.
pub open spec fn alike(a: Answer, b: Answer) -> bool {
    match (a, b) {
        (Answer::Word(x, _), Answer::Word(y, _)) => x == y,
        (Answer::Trap, Answer::Trap) => true,
        (Answer::Never, Answer::Never) => true,
        _ => false,
    }
}

/// Where a closure has an uncurried entry for so many arguments, that entry comes to
/// what the closure does to the arguments one by one.
pub open spec fn honest(gc: bool, code: Code, clos: u64, args: Seq<u64>, s: Store) -> bool {
    slot_of(gc, s, clos, 2) == args.len() ==> alike(
        entered(gc, code, clos, args, s),
        chained(gc, code, clos, args, s),
    )
}

/// What a call with all its arguments answers: what the closure's uncurried entry
/// does, where it has one for so many, else what the closure does to the arguments
/// one by one.
pub open spec fn picked(gc: bool, code: Code, clos: u64, args: Seq<u64>, s: Store) -> Answer {
    if slot_of(gc, s, clos, 2) == args.len() {
        entered(gc, code, clos, args, s)
    } else {
        chained(gc, code, clos, args, s)
    }
}

/// The words of operands.
pub open spec fn words_of(m: Machine, vs: Seq<Val>) -> Seq<u64> {
    Seq::new(vs.len(), |i: int| m.value(vs[i]))
}

/// A machine that runs on in the same function, with the values before `n`.
pub open spec fn goes_on(before: Machine, after: Machine, n: int) -> bool {
    &&& after.params == before.params
    &&& after.code == before.code
    &&& after.room == before.room
    &&& after.args.len() == 0
    &&& forall|i: u64| i < n ==> after.regs[i] == #[trigger] before.regs[i]
}

/// The code from `n` to `end` answers so.
pub open spec fn answers_so(
    script: Seq<Cmd>,
    n: int,
    m: Machine,
    end: int,
    v: Val,
    answer: Answer,
    after: Machine,
) -> bool {
    match answer {
        Answer::Word(w, s) => {
            &&& run(script, n, m) == run(script, end, after)
            &&& after.value(v) == w
            &&& after.store() == s
            &&& goes_on(m, after, n)
        },
        Answer::Trap => run(script, n, m) is Trap,
        Answer::Never => run(script, n, m) is Beyond,
    }
}

/// No block is entered, and no phi is fed, from one position to another.
pub open spec fn straight(script: Seq<Cmd>, from: int, to: int) -> bool {
    forall|i: int| from <= i < to ==> !(#[trigger] script[i] is At) && !(script[i] is Incoming)
}

proof fn lemma_straight_seek(script: Seq<Cmd>, block: u64, i: int, p: int)
    requires
        0 <= i <= p < script.len(),
        script[p] == (Cmd::At { block }),
        straight(script, i, p),
    ensures
        seek(script, block, i) == p,
    decreases p - i,
{
    if i < p {
        assert(!(script[i] is At));
        lemma_straight_seek(script, block, i + 1, p);
    }
}

proof fn lemma_straight_opened(script: Seq<Cmd>, block: u64, at: int, i: int)
    requires
        0 <= at < i <= script.len(),
        script[at] == (Cmd::At { block }),
        straight(script, at + 1, i),
    ensures
        opened(script, i) == block,
    decreases i,
{
    if at < i - 1 {
        assert(!(script[i - 1] is At));
        lemma_straight_opened(script, block, at, i - 1);
    }
}

/// The commands that a step puts, with no block among them.
pub open spec fn straight_on(st: St, end: St) -> bool {
    &&& end.cx == st.cx
    &&& extends(end.script, st.script)
    &&& straight(end.script, st.script.len() as int, end.script.len() as int)
}

proof fn lemma_straight_on(a: St, b: St, c: St)
    requires
        straight_on(a, b),
        straight_on(b, c),
    ensures
        straight_on(a, c),
{
    assert forall|i: int| a.script.len() <= i < c.script.len() implies !(#[trigger] c.script[i] is At)
        && !(c.script[i] is Incoming) by {
        if i < b.script.len() {
            assert(c.script[i] == b.script[i]);
        }
    }
    assert forall|i: int| 0 <= i < a.script.len() implies c.script[i] == #[trigger] a.script[i] by {
        assert(b.script[i] == a.script[i]);
        assert(c.script[i] == b.script[i]);
    }
}

// ── one application ──────────────────────────────────────────────────────
proof fn lemma_slot(st: St, clos: Val, slot: u64, script: Seq<Cmd>, m: Machine) -> (after: Machine)
    requires
        st.script.len() + 8 <= u64::MAX,
        ready(st, clos),
        m.args.len() == 0,
        extends(script, st.closure_slot(clos, slot).0.script),
    ensures
        ({
            let (end, v) = st.closure_slot(clos, slot);
            &&& straight_on(st, end)
            &&& end.script.len() == st.script.len() + 3
            &&& ready(end, v)
            &&& run(script, st.script.len() as int, m) == run(script, end.script.len() as int, after)
            &&& after.value(v) == slot_of(st.cx.gc, m.store(), m.value(clos), slot)
            &&& after.store() == m.store()
            &&& goes_on(m, after, st.script.len() as int)
        }),
{
    let n = st.script.len() as int;
    let (end, v) = st.closure_slot(clos, slot);
    assert(script[n] == end.script[n]);
    assert(script[n + 1] == end.script[n + 1]);
    assert(script[n + 2] == end.script[n + 2]);
    if st.cx.gc {
        reveal_strlit("llvm.trap");
        reveal_strlit("locus_gc_get_scalar");
        reveal_strlit("llvm.sadd.with.overflow.i64");
        reveal_strlit("llvm.ssub.with.overflow.i64");
        reveal_strlit("llvm.smul.with.overflow.i64");
        assert("locus_gc_get_scalar"@[1] != "llvm.trap"@[1]);
        assert("locus_gc_get_scalar"@[1] != "llvm.sadd.with.overflow.i64"@[1]);
        assert("locus_gc_get_scalar"@[1] != "llvm.ssub.with.overflow.i64"@[1]);
        assert("locus_gc_get_scalar"@[1] != "llvm.smul.with.overflow.i64"@[1]);
        let m1 = Machine { args: m.args.push(m.value(clos)), ..m };
        let m2 = Machine { args: m1.args.push(slot), ..m1 };
        assert(run(script, n, m) == run(script, n + 1, m1));
        assert(run(script, n + 1, m1) == run(script, n + 2, m2));
        let m3 = m2.back(n + 2, m2.objects[(m2.args[0], m2.args[1])], m2.store());
        assert(run(script, n + 2, m2) == run(script, n + 3, m3));
        m3
    } else {
        let m1 = m.set(n, m.value(clos));
        let m2 = m1.set(n + 1, word(m.value(clos) + slot * 8));
        let m3 = m2.set(n + 2, m2.mem[word(m.value(clos) + slot * 8)]);
        assert(run(script, n, m) == run(script, n + 1, m1));
        assert(run(script, n + 1, m1) == run(script, n + 2, m2));
        assert(run(script, n + 2, m2) == run(script, n + 3, m3));
        m3
    }
}

/// Applying a closure to one argument calls its curried entry.
#[verifier::rlimit(30)]
pub(crate) proof fn lemma_apply_one(
    st: St,
    clos: Val,
    arg: Val,
    arg_ty: Rc<Type>,
    ret_ty: Rc<Type>,
    script: Seq<Cmd>,
    m: Machine,
) -> (after: Machine)
    requires
        st.script.len() + 16 <= u64::MAX,
        ready(st, clos),
        ready(st, arg),
        m.args.len() == 0,
        st.apply_one(clos, arg, arg_ty, ret_ty) is Ok,
        extends(script, st.apply_one(clos, arg, arg_ty, ret_ty)->Ok_0.0.script),
    ensures
        ({
            let (end, v) = st.apply_one(clos, arg, arg_ty, ret_ty)->Ok_0;
            &&& straight_on(st, end)
            &&& end.script.len() == st.script.len() + 9
            &&& ready(end, v)
            &&& answers_so(
                script,
                st.script.len() as int,
                m,
                end.script.len() as int,
                v,
                applied(st.cx.gc, m.code, m.value(clos), m.value(arg), m.store()),
                after,
            )
        }),
{
    let n = st.script.len() as int;
    let (end, v) = st.apply_one(clos, arg, arg_ty, ret_ty)->Ok_0;
    let done = end.script;
    let w = m.value(clos);
    assert(done.len() == n + 9);
    assert(script[n] == done[n] && script[n + 1] == done[n + 1] && script[n + 2] == done[n + 2]);
    assert(script[n + 3] == done[n + 3] && script[n + 4] == done[n + 4]);
    assert(script[n + 5] == done[n + 5] && script[n + 6] == done[n + 6]);
    assert(script[n + 7] == done[n + 7] && script[n + 8] == done[n + 8]);
    assert(straight_on(st, end));
    let m3 = if st.cx.gc {
        assert(extends(script, st.closure_slot(clos, 0).0.script)) by {
            let cut = st.closure_slot(clos, 0).0.script;
            assert forall|i: int| 0 <= i < cut.len() implies script[i] == #[trigger] cut[i] by {
                assert(done[i] == cut[i]);
                assert(script[i] == done[i]);
            }
        }
        lemma_slot(st, clos, 0, script, m)
    } else {
        let m1 = m.set(n, w);
        let m2 = m1.set(n + 1, word(w + 0));
        assert(run(script, n, m) == run(script, n + 1, m1));
        assert(run(script, n + 1, m1) == run(script, n + 2, m2));
        let m3 = m2.set(n + 2, m2.mem[word(w + 0)]);
        assert(run(script, n + 2, m2) == run(script, n + 3, m3));
        m3
    };
    let entry = slot_of(st.cx.gc, m.store(), w, 0);
    assert(m3.regs[(n + 2) as u64] == entry);
    assert(m3.value(arg) == m.value(arg));
    let m4 = m3.set(n + 3, entry);
    assert(run(script, n + 3, m3) == run(script, n + 4, m4));
    assert(run(script, n + 4, m4) == run(script, n + 5, m4));
    assert(run(script, n + 5, m4) == run(script, n + 6, m4));
    let m5 = Machine { args: m4.args.push(w), ..m4 };
    assert(run(script, n + 6, m4) == run(script, n + 7, m5)) by {
        if !st.cx.gc {
            assert(m4.regs[n as u64] == w);
        }
    }
    let m6 = Machine { args: m5.args.push(m.value(arg)), ..m5 };
    assert(run(script, n + 7, m5) == run(script, n + 8, m6));
    assert(m6.args =~= seq![w, m.value(arg)]);
    assert(m6.regs[(n + 3) as u64] == entry);
    match applied(st.cx.gc, m.code, w, m.value(arg), m.store()) {
        Answer::Word(r, s) => {
            let m7 = m6.back(n + 8, r, s);
            assert(run(script, n + 8, m6) == run(script, n + 9, m7));
            m7
        },
        _ => m6,
    }
}

/// What a function of a type gives.
pub open spec fn result_of(ty: Rc<Type>) -> Rc<Type> {
    match *ty {
        Type::Fun(_, ret, _) => ret,
        _ => ty,
    }
}

/// Applying a closure to arguments one by one.
proof fn lemma_chain(
    st: St,
    clos: Val,
    fun_ty: Rc<Type>,
    args: Seq<CallArg>,
    vs: Seq<Val>,
    i: nat,
    script: Seq<Cmd>,
    m: Machine,
) -> (after: Machine)
    requires
        i < args.len(),
        args.len() == vs.len(),
        ready(st, clos),
        forall|k: int| 0 <= k < vs.len() ==> ready(st, #[trigger] vs[k]),
        m.args.len() == 0,
        st.apply_chain(clos, fun_ty, args, vs, i) is Ok,
        st.apply_chain(clos, fun_ty, args, vs, i)->Ok_0.0.script.len() + 16 <= u64::MAX,
        extends(script, st.apply_chain(clos, fun_ty, args, vs, i)->Ok_0.0.script),
    ensures
        ({
            let (end, v) = st.apply_chain(clos, fun_ty, args, vs, i)->Ok_0;
            &&& straight_on(st, end)
            &&& ready(end, v)
            &&& answers_so(
                script,
                st.script.len() as int,
                m,
                end.script.len() as int,
                v,
                chained(
                    st.cx.gc,
                    m.code,
                    m.value(clos),
                    words_of(m, vs).skip(i as int),
                    m.store(),
                ),
                after,
            )
        }),
    decreases args.len() - i,
{
    let n = st.script.len() as int;
    let (end, v) = st.apply_chain(clos, fun_ty, args, vs, i)->Ok_0;
    let rest = result_of(fun_ty);
    let (mid, r) = st.apply_one(clos, vs[i as int], args[i as int].ty, rest)->Ok_0;
    let words = words_of(m, vs).skip(i as int);
    assert(words[0] == m.value(vs[i as int]));
    lemma_apply_len(st, clos, vs[i as int], args[i as int].ty, rest);
    if i + 1 < args.len() {
        lemma_chain_len(mid, r, rest, args, vs, i + 1);
        lemma_straight_on(st, mid, end);
        assert(extends(script, mid.script)) by {
            assert forall|k: int| 0 <= k < mid.script.len() implies script[k] == #[trigger] mid.script[k] by {
                assert(end.script[k] == mid.script[k]);
                assert(script[k] == end.script[k]);
            }
        }
        let after = lemma_apply_one(st, clos, vs[i as int], args[i as int].ty, rest, script, m);
        match applied(st.cx.gc, m.code, m.value(clos), words[0], m.store()) {
            Answer::Word(f, s) => {
                let end_m = lemma_chain(mid, r, rest, args, vs, i + 1, script, after);
                assert(words_of(after, vs).skip((i + 1) as int) =~= words.drop_first()) by {
                    assert forall|k: int| 0 <= k < vs.len() implies after.value(#[trigger] vs[k])
                        == m.value(vs[k]) by {
                        assert(ready(st, vs[k]));
                    }
                }
                assert(chained(st.cx.gc, m.code, f, words.drop_first(), s) is Word ==> goes_on(m, end_m, n)) by {
                    if chained(st.cx.gc, m.code, f, words.drop_first(), s) is Word {
                        lemma_goes_on(m, after, end_m, n, mid.script.len() as int);
                    }
                }
                assert(chained(st.cx.gc, m.code, m.value(clos), words, m.store()) == chained(
                    st.cx.gc,
                    m.code,
                    f,
                    words.drop_first(),
                    s,
                ));
                end_m
            },
            other => {
                assert(chained(st.cx.gc, m.code, m.value(clos), words, m.store()) == other);
                after
            },
        }
    } else {
        let after = lemma_apply_one(st, clos, vs[i as int], args[i as int].ty, rest, script, m);
        assert(words.drop_first() =~= Seq::<u64>::empty());
        match applied(st.cx.gc, m.code, m.value(clos), words[0], m.store()) {
            Answer::Word(f, s) => {
                assert(chained(st.cx.gc, m.code, f, words.drop_first(), s) == Answer::Word(f, s));
            },
            _ => {},
        }
        after
    }
}

pub(crate) proof fn lemma_goes_on(a: Machine, b: Machine, c: Machine, n: int, k: int)
    requires
        n <= k,
        goes_on(a, b, n),
        goes_on(b, c, k),
    ensures
        goes_on(a, c, n),
{
    assert forall|i: u64| i < n implies c.regs[i] == #[trigger] a.regs[i] by {
        assert(b.regs[i] == a.regs[i]);
    }
}

pub(crate) proof fn lemma_apply_len(st: St, clos: Val, arg: Val, arg_ty: Rc<Type>, ret_ty: Rc<Type>)
    requires
        st.apply_one(clos, arg, arg_ty, ret_ty) is Ok,
    ensures
        ({
            let (end, v) = st.apply_one(clos, arg, arg_ty, ret_ty)->Ok_0;
            &&& straight_on(st, end)
            &&& end.script.len() == st.script.len() + 9
            &&& st.script.len() + 9 <= u64::MAX ==> ready(end, v)
        }),
{
}

pub(crate) proof fn lemma_chain_len(st: St, clos: Val, fun_ty: Rc<Type>, args: Seq<CallArg>, vs: Seq<Val>, i: nat)
    requires
        i < args.len(),
        st.apply_chain(clos, fun_ty, args, vs, i) is Ok,
    ensures
        straight_on(st, st.apply_chain(clos, fun_ty, args, vs, i)->Ok_0.0),
        st.apply_chain(clos, fun_ty, args, vs, i)->Ok_0.0.script.len() >= st.script.len() + 9,
        st.apply_chain(clos, fun_ty, args, vs, i)->Ok_0.0.script.len() <= u64::MAX ==> ready(
            st.apply_chain(clos, fun_ty, args, vs, i)->Ok_0.0,
            st.apply_chain(clos, fun_ty, args, vs, i)->Ok_0.1,
        ),
    decreases args.len() - i,
{
    let end = st.apply_chain(clos, fun_ty, args, vs, i)->Ok_0.0;
    let rest = result_of(fun_ty);
    let (mid, r) = st.apply_one(clos, vs[i as int], args[i as int].ty, rest)->Ok_0;
    lemma_apply_len(st, clos, vs[i as int], args[i as int].ty, rest);
    if i + 1 < args.len() {
        lemma_chain_len(mid, r, rest, args, vs, i + 1);
        lemma_straight_on(st, mid, end);
    }
}

// ── all arguments at once ────────────────────────────────────────────────
proof fn lemma_params(st: St, args: Seq<CallArg>, i: nat, script: Seq<Cmd>, m: Machine)
    requires
        i <= args.len(),
        st.arg_params(args, i) is Ok,
        extends(script, st.arg_params(args, i)->Ok_0.script),
    ensures
        straight_on(st, st.arg_params(args, i)->Ok_0),
        st.arg_params(args, i)->Ok_0.script.len() == st.script.len() + args.len() - i,
        run(script, st.script.len() as int, m) == run(
            script,
            st.arg_params(args, i)->Ok_0.script.len() as int,
            m,
        ),
    decreases args.len() - i,
{
    if i < args.len() {
        let ty = abi_ty(args[i as int].ty)->Ok_0;
        let next = st.put(Cmd::Param { ty });
        lemma_params(next, args, i + 1, script, m);
        let end = st.arg_params(args, i)->Ok_0;
        lemma_straight_on(st, next, end);
        assert(end.script[st.script.len() as int] == next.script[st.script.len() as int]);
        assert(script[st.script.len() as int] == end.script[st.script.len() as int]);
    }
}

proof fn lemma_push(st: St, vs: Seq<Val>, k: nat, script: Seq<Cmd>, m: Machine) -> (after: Machine)
    requires
        k <= vs.len(),
        extends(script, st.push_args(vs, k).script),
    ensures
        straight_on(st, st.push_args(vs, k)),
        st.push_args(vs, k).script.len() == st.script.len() + k,
        run(script, st.script.len() as int, m) == run(
            script,
            st.push_args(vs, k).script.len() as int,
            after,
        ),
        after == (Machine { args: m.args + words_of(m, vs).take(k as int), ..m }),
    decreases k,
{
    if k == 0 {
        assert(m.args + words_of(m, vs).take(0) =~= m.args);
        m
    } else {
        let mid = st.push_args(vs, (k - 1) as nat);
        let end = st.push_args(vs, k);
        assert(end == mid.arg(vs[k - 1]));
        assert(extends(script, mid.script)) by {
            assert forall|i: int| 0 <= i < mid.script.len() implies script[i] == #[trigger] mid.script[i] by {
                assert(end.script[i] == mid.script[i]);
                assert(script[i] == end.script[i]);
            }
        }
        let part = lemma_push(st, vs, (k - 1) as nat, script, m);
        lemma_straight_on(st, mid, end);
        assert(script[mid.script.len() as int] == end.script[mid.script.len() as int]);
        let after = Machine { args: part.args.push(part.value(vs[k - 1])), ..part };
        assert(after.args =~= m.args + words_of(m, vs).take(k as int));
        after
    }
}

/// The direct call of an uncurried entry.
#[verifier::rlimit(30)]
proof fn lemma_fast(
    st: St,
    clos: Val,
    entry: Val,
    args: Seq<CallArg>,
    vs: Seq<Val>,
    script: Seq<Cmd>,
    m: Machine,
) -> (after: Machine)
    requires
        ready(st, clos),
        ready(st, entry),
        forall|k: int| 0 <= k < vs.len() ==> ready(st, #[trigger] vs[k]),
        m.args.len() == 0,
        st.fast_call(clos, entry, args, vs, Ty::I64) is Ok,
        st.fast_call(clos, entry, args, vs, Ty::I64)->Ok_0.0.script.len() + 16 <= u64::MAX,
        extends(script, st.fast_call(clos, entry, args, vs, Ty::I64)->Ok_0.0.script),
    ensures
        ({
            let (end, v) = st.fast_call(clos, entry, args, vs, Ty::I64)->Ok_0;
            &&& straight_on(st, end)
            &&& ready(end, v)
            &&& st.script.len() <= end.script.len()
            &&& answers_so(
                script,
                st.script.len() as int,
                m,
                end.script.len() as int,
                v,
                (m.code)(m.value(entry), seq![m.value(clos)] + words_of(m, vs), m.store()),
                after,
            )
        }),
{
    let n = st.script.len() as int;
    let (end, v) = st.fast_call(clos, entry, args, vs, Ty::I64)->Ok_0;
    let s0 = st.put(Cmd::Param { ty: env_ty(st.cx.gc) });
    let s1 = s0.arg_params(args, 0)->Ok_0;
    let (s2, fp) = s1.convert(Conv::IntToPtr, entry, Ty::Ptr, "fastfp");
    let (s3, env) = if st.cx.gc {
        (s2, clos)
    } else {
        s2.convert(Conv::IntToPtr, clos, Ty::Ptr, "fastenv")
    };
    let s4 = s3.arg(env);
    let s5 = s4.push_args(vs, vs.len());
    let done = end.script;
    lemma_params_len(s0, args, 0);
    lemma_push_len(s4, vs, vs.len());
    assert(straight_on(st, s0));
    lemma_straight_on(st, s0, s1);
    assert(straight_on(s1, s4));
    lemma_straight_on(st, s1, s4);
    lemma_straight_on(st, s4, s5);
    assert(straight_on(s5, end));
    lemma_straight_on(st, s5, end);
    lemma_prefix(script, done, s5.script);
    lemma_prefix(script, s5.script, s4.script);
    lemma_prefix(script, s4.script, s1.script);
    lemma_prefix(script, s1.script, s0.script);
    let n1 = s1.script.len() as int;
    let n4 = s4.script.len() as int;
    let n5 = s5.script.len() as int;
    assert(script[n] == s0.script[n]);
    assert(run(script, n, m) == run(script, n + 1, m));
    lemma_params(s0, args, 0, script, m);
    assert(script[n1] == s4.script[n1]);
    let m1 = m.set(n1, m.value(entry));
    assert(run(script, n1, m) == run(script, n1 + 1, m1));
    assert(m1.value(clos) == m.value(clos));
    assert(script[n4 - 1] == s4.script[n4 - 1]);
    let m3 = if st.cx.gc {
        m1
    } else {
        assert(script[n1 + 1] == s4.script[n1 + 1]);
        assert(run(script, n1 + 1, m1) == run(script, n1 + 2, m1.set(n1 + 1, m.value(clos))));
        m1.set(n1 + 1, m.value(clos))
    };
    assert(m3.value(env) == m.value(clos));
    let m4 = Machine { args: m3.args.push(m.value(clos)), ..m3 };
    assert(run(script, n4 - 1, m3) == run(script, n4, m4));
    let m5 = lemma_push(s4, vs, vs.len(), script, m4);
    assert(m5.args =~= seq![m.value(clos)] + words_of(m, vs)) by {
        assert forall|k: int| 0 <= k < vs.len() implies m4.value(#[trigger] vs[k]) == m.value(vs[k]) by {
            assert(ready(st, vs[k]));
        }
    }
    assert(script[n5] == done[n5]);
    assert(m5.value(fp) == m.value(entry));
    assert(m5.store() == m.store());
    match (m.code)(m.value(entry), seq![m.value(clos)] + words_of(m, vs), m.store()) {
        Answer::Word(r, s) => {
            let m6 = m5.back(n5, r, s);
            assert(run(script, n5, m5) == run(script, n5 + 1, m6));
            m6
        },
        _ => m5,
    }
}

proof fn lemma_prefix(script: Seq<Cmd>, long: Seq<Cmd>, short: Seq<Cmd>)
    requires
        extends(script, long),
        extends(long, short),
    ensures
        extends(script, short),
{
    assert forall|i: int| 0 <= i < short.len() implies script[i] == #[trigger] short[i] by {
        assert(long[i] == short[i]);
        assert(script[i] == long[i]);
    }
}

proof fn lemma_params_len(st: St, args: Seq<CallArg>, i: nat)
    requires
        i <= args.len(),
        st.arg_params(args, i) is Ok,
    ensures
        straight_on(st, st.arg_params(args, i)->Ok_0),
        st.arg_params(args, i)->Ok_0.script.len() == st.script.len() + args.len() - i,
    decreases args.len() - i,
{
    if i < args.len() {
        let ty = abi_ty(args[i as int].ty)->Ok_0;
        let next = st.put(Cmd::Param { ty });
        lemma_params_len(next, args, i + 1);
        lemma_straight_on(st, next, st.arg_params(args, i)->Ok_0);
    }
}

proof fn lemma_push_len(st: St, vs: Seq<Val>, k: nat)
    ensures
        straight_on(st, st.push_args(vs, k)),
        st.push_args(vs, k).script.len() == st.script.len() + k,
    decreases k,
{
    if k > 0 {
        let mid = st.push_args(vs, (k - 1) as nat);
        lemma_push_len(st, vs, (k - 1) as nat);
        assert(straight_on(mid, st.push_args(vs, k)));
        lemma_straight_on(st, mid, st.push_args(vs, k));
    }
}

/// The commands of a saturated call around its two paths.
pub open spec fn call_around(
    script: Seq<Cmd>,
    n: int,
    f: int,
    c: int,
    count: u64,
    arity: Val,
    fast: Val,
    slow: Val,
) -> bool {
    let test = Val { id: Id::Reg((n + 9) as u64), ty: Ty::I1 };
    &&& 0 <= n
    &&& n + 12 <= f
    &&& f + 2 <= c
    &&& c + 5 <= script.len()
    &&& c + 64 <= u64::MAX
    &&& script[n + 6] is Block
    &&& script[n + 7] is Block
    &&& script[n + 8] is Block
    &&& script[n + 9] == (Cmd::IntTest {
        pred: IntPred::Eq,
        a: arity,
        b: constant(count),
        label: "call.arity.ok",
    })
    &&& script[n + 10] == (Cmd::CondBr { cond: test, yes: (n + 6) as u64, no: (n + 7) as u64 })
    &&& script[n + 11] == (Cmd::At { block: (n + 6) as u64 })
    &&& straight(script, n + 12, f)
    &&& script[f] == (Cmd::Br { to: (n + 8) as u64 })
    &&& script[f + 1] == (Cmd::At { block: (n + 7) as u64 })
    &&& straight(script, f + 2, c)
    &&& script[c] == (Cmd::Br { to: (n + 8) as u64 })
    &&& script[c + 1] == (Cmd::At { block: (n + 8) as u64 })
    &&& script[c + 2] is Phi
    &&& script[c + 3] == (Cmd::Incoming { phi: (c + 2) as u64, val: fast, from: (n + 6) as u64 })
    &&& script[c + 4] == (Cmd::Incoming { phi: (c + 2) as u64, val: slow, from: (n + 7) as u64 })
}

/// The test of a saturated call picks one of its two paths.
proof fn lemma_call_enter(
    script: Seq<Cmd>,
    n: int,
    f: int,
    c: int,
    count: u64,
    arity: Val,
    fast: Val,
    slow: Val,
    m: Machine,
) -> (after: Machine)
    requires
        call_around(script, n, f, c, count, arity, fast, slow),
        m.args.len() == 0,
    ensures
        goes_on(m, after, n + 9),
        after.store() == m.store(),
        run(script, n + 6, m) == run(
            script,
            if m.value(arity) == count {
                n + 12
            } else {
                f + 2
            },
            after,
        ),
{
    let yes = (n + 6) as u64;
    let no = (n + 7) as u64;
    let pick = m.value(arity) == count;
    let m1 = m.set(n + 9, flag(pick));
    let after = m1.left(opened(script, n + 10));
    assert(run(script, n + 6, m) == run(script, n + 7, m));
    assert(run(script, n + 7, m) == run(script, n + 8, m));
    assert(run(script, n + 8, m) == run(script, n + 9, m));
    assert(run(script, n + 9, m) == run(script, n + 10, m1));
    if pick {
        assert(seek(script, yes, n + 11) == n + 11);
        assert(run(script, n + 10, m1) == run(script, n + 11, after));
        assert(run(script, n + 11, after) == run(script, n + 12, after));
    } else {
        lemma_straight_seek(script, no, n + 12, f + 1);
        assert(seek(script, no, n + 11) == seek(script, no, n + 12));
        assert(run(script, n + 10, m1) == run(script, f + 1, after));
        assert(run(script, f + 1, after) == run(script, f + 2, after));
    }
    after
}

/// The two paths of a saturated call meet.
proof fn lemma_call_leave(
    script: Seq<Cmd>,
    n: int,
    f: int,
    c: int,
    count: u64,
    arity: Val,
    fast: Val,
    slow: Val,
    direct: bool,
    m: Machine,
) -> (after: Machine)
    requires
        call_around(script, n, f, c, count, arity, fast, slow),
        m.args.len() == 0,
    ensures
        goes_on(m, after, c + 2),
        after.store() == m.store(),
        after.regs[(c + 2) as u64] == m.value(
            if direct {
                fast
            } else {
                slow
            },
        ),
        run(
            script,
            if direct {
                f
            } else {
                c
            },
            m,
        ) == run(script, c + 5, after),
{
    let join = (n + 8) as u64;
    let from: u64 = if direct {
        (n + 6) as u64
    } else {
        (n + 7) as u64
    };
    let m1 = m.left(from);
    if direct {
        lemma_straight_opened(script, from, n + 11, f);
        assert(!(script[c] is At));
        assert(straight(script, f + 2, c + 1));
        lemma_straight_seek(script, join, f + 2, c + 1);
        assert(seek(script, join, f + 1) == seek(script, join, f + 2));
        assert(run(script, f, m) == run(script, c + 1, m1));
    } else {
        lemma_straight_opened(script, from, f + 1, c);
        assert(seek(script, join, c + 1) == c + 1);
        assert(run(script, c, m) == run(script, c + 1, m1));
    }
    let phi = c + 2;
    let v = if direct {
        fast
    } else {
        slow
    };
    assert(run(script, c + 1, m1) == run(script, phi, m1));
    assert(edge(script, phi, from, c + 4) == Some(slow) || direct);
    assert(edge(script, phi, from, c + 3) == Some(v));
    assert(m1.past(v) == m.value(v));
    let after = m1.set(phi, m.value(v));
    assert(run(script, phi, m1) == run(script, c + 3, after));
    assert(run(script, c + 3, after) == run(script, c + 4, after));
    assert(run(script, c + 4, after) == run(script, c + 5, after));
    after
}

/// The parts of a saturated call.
pub struct CallParts {
    pub st: St,
    pub arity: Val,
    pub entry: Val,
    pub fast_end: St,
    pub fast: Val,
    pub slow_end: St,
    pub slow: Val,
}

/// The state in which the direct path of a saturated call begins, and the two
/// cells that its closure is asked for.
pub open spec fn call_head(st: St, clos: Val, count: u64) -> (St, Val, Val) {
    let (s1, arity) = st.closure_slot(clos, 2);
    let (s2, entry) = s1.closure_slot(clos, 1);
    let (s3, fast_bb) = s2.new_block("call.fast");
    let (s4, slow_bb) = s3.new_block("call.curried");
    let (s5, _) = s4.new_block("call.cont");
    let (s6, ok) = s5.itest(IntPred::Eq, arity, constant(count), "call.arity.ok");
    (s6.cond_br(ok, fast_bb, slow_bb).at(fast_bb), arity, entry)
}

/// The state in which the path argument by argument begins.
pub open spec fn call_turn(st: St, fast_end: St) -> St {
    fast_end.br((st.script.len() + 8) as u64).at((st.script.len() + 7) as u64)
}

pub(crate) proof fn lemma_call_parts(
    st: St,
    clos: Val,
    args: Seq<CallArg>,
    vs: Seq<Val>,
    fun_ty: Rc<Type>,
) -> (p: CallParts)
    requires
        st.script.len() + 16 <= u64::MAX,
        args.len() <= u64::MAX,
        0 < args.len() == vs.len(),
        st.call_by_arity(clos, args, vs, fun_ty, Ty::I64) is Ok,
    ensures
        ({
            let head = call_head(st, clos, args.len() as u64);
            let (end, v) = st.call_by_arity(clos, args, vs, fun_ty, Ty::I64)->Ok_0;
            &&& p.st == head.0
            &&& p.arity == head.1
            &&& p.entry == head.2
            &&& head.0.fast_call(clos, p.entry, args, vs, Ty::I64) == Ok::<(St, Val), CodegenError>(
                (p.fast_end, p.fast),
            )
            &&& call_turn(st, p.fast_end).apply_chain(clos, fun_ty, args, vs, 0) == Ok::<
                (St, Val),
                CodegenError,
            >((p.slow_end, p.slow))
            &&& straight_on(p.st, p.fast_end)
            &&& straight_on(call_turn(st, p.fast_end), p.slow_end)
            &&& p.st.script.len() == st.script.len() + 12
            &&& end.script.len() == p.slow_end.script.len() + 5
            &&& v == Val { id: Id::Reg((p.slow_end.script.len() + 2) as u64), ty: Ty::I64 }
            &&& extends(end.script, p.slow_end.script)
            &&& end.script.len() <= u64::MAX ==> call_around(
                end.script,
                st.script.len() as int,
                p.fast_end.script.len() as int,
                p.slow_end.script.len() as int,
                args.len() as u64,
                p.arity,
                p.fast,
                p.slow,
            ) || p.slow_end.script.len() + 64 > u64::MAX
        }),
{
    let n = st.script.len() as int;
    let head = call_head(st, clos, args.len() as u64);
    let (s0, arity, entry) = head;
    let (fast_end, fast) = s0.fast_call(clos, entry, args, vs, Ty::I64)->Ok_0;
    let turn = call_turn(st, fast_end);
    let (slow_end, slow) = turn.apply_chain(clos, fun_ty, args, vs, 0)->Ok_0;
    let (end, v) = st.call_by_arity(clos, args, vs, fun_ty, Ty::I64)->Ok_0;
    assert(s0.script.len() == n + 12);
    lemma_fast_len(s0, clos, entry, args, vs);
    lemma_chain_len(turn, clos, fun_ty, args, vs, 0);
    let p = CallParts { st: s0, arity, entry, fast_end, fast, slow_end, slow };
    let f = fast_end.script.len() as int;
    let c = slow_end.script.len() as int;
    assert(s0.cx.block == (n + 6) as u64);
    assert(end.script.len() == c + 5);
    if c + 64 <= u64::MAX {
        assert(extends(turn.script, fast_end.script));
        lemma_prefix(end.script, slow_end.script, turn.script);
        lemma_prefix(end.script, turn.script, fast_end.script);
        lemma_prefix(end.script, fast_end.script, s0.script);
        assert(end.script[n + 6] == s0.script[n + 6]);
        assert(end.script[n + 7] == s0.script[n + 7]);
        assert(end.script[n + 8] == s0.script[n + 8]);
        assert(end.script[n + 9] == s0.script[n + 9]);
        assert(end.script[n + 10] == s0.script[n + 10]);
        assert(end.script[n + 11] == s0.script[n + 11]);
        assert(end.script[f] == turn.script[f]);
        assert(end.script[f + 1] == turn.script[f + 1]);
        assert forall|i: int| n + 12 <= i < f implies !(#[trigger] end.script[i] is At)
        && !(end.script[i] is Incoming) by {
            assert(end.script[i] == fast_end.script[i]);
        }
        assert forall|i: int| f + 2 <= i < c implies !(#[trigger] end.script[i] is At)
        && !(end.script[i] is Incoming) by {
            assert(end.script[i] == slow_end.script[i]);
        }
    }
    p
}

pub(crate) proof fn lemma_fast_len(st: St, clos: Val, entry: Val, args: Seq<CallArg>, vs: Seq<Val>)
    requires
        st.fast_call(clos, entry, args, vs, Ty::I64) is Ok,
    ensures
        straight_on(st, st.fast_call(clos, entry, args, vs, Ty::I64)->Ok_0.0),
        st.script.len() + args.len() <= st.fast_call(clos, entry, args, vs, Ty::I64)->Ok_0.0.script.len(),
{
    let (end, v) = st.fast_call(clos, entry, args, vs, Ty::I64)->Ok_0;
    let s0 = st.put(Cmd::Param { ty: env_ty(st.cx.gc) });
    let s1 = s0.arg_params(args, 0)->Ok_0;
    let (s2, fp) = s1.convert(Conv::IntToPtr, entry, Ty::Ptr, "fastfp");
    let (s3, env) = if st.cx.gc {
        (s2, clos)
    } else {
        s2.convert(Conv::IntToPtr, clos, Ty::Ptr, "fastenv")
    };
    let s4 = s3.arg(env);
    let s5 = s4.push_args(vs, vs.len());
    lemma_params_len(s0, args, 0);
    lemma_push_len(s4, vs, vs.len());
    assert(straight_on(st, s0));
    lemma_straight_on(st, s0, s1);
    assert(straight_on(s1, s4));
    lemma_straight_on(st, s1, s4);
    lemma_straight_on(st, s4, s5);
    assert(straight_on(s5, end));
    lemma_straight_on(st, s5, end);
}

/// A call with all its arguments asks its closure for the arity of its uncurried
/// entry. Where that is the number of arguments, it answers what that entry does;
/// else it answers what the closure does to the arguments one by one. Either way
/// the arguments are the words that stood ready before the test.
#[verifier::rlimit(40)]
pub proof fn a_saturated_call_goes_by_arity(
    st: St,
    clos: Val,
    args: Seq<CallArg>,
    vs: Seq<Val>,
    fun_ty: Rc<Type>,
    script: Seq<Cmd>,
    m: Machine,
) -> (after: Machine)
    requires
        0 < args.len() == vs.len(),
        ready(st, clos),
        forall|k: int| 0 <= k < vs.len() ==> ready(st, #[trigger] vs[k]),
        m.args.len() == 0,
        st.call_by_arity(clos, args, vs, fun_ty, Ty::I64) is Ok,
        st.call_by_arity(clos, args, vs, fun_ty, Ty::I64)->Ok_0.0.script.len() + 64 <= u64::MAX,
        extends(script, st.call_by_arity(clos, args, vs, fun_ty, Ty::I64)->Ok_0.0.script),
    ensures
        answers_so(
            script,
            st.script.len() as int,
            m,
            st.call_by_arity(clos, args, vs, fun_ty, Ty::I64)->Ok_0.0.script.len() as int,
            st.call_by_arity(clos, args, vs, fun_ty, Ty::I64)->Ok_0.1,
            picked(st.cx.gc, m.code, m.value(clos), words_of(m, vs), m.store()),
            after,
        ),
{
    let n = st.script.len() as int;
    let gc = st.cx.gc;
    let (end, v) = st.call_by_arity(clos, args, vs, fun_ty, Ty::I64)->Ok_0;
    lemma_call_small(st, clos, args, vs, fun_ty);
    let p = lemma_call_parts(st, clos, args, vs, fun_ty);
    let f = p.fast_end.script.len() as int;
    let c = p.slow_end.script.len() as int;
    let count = args.len() as u64;
    let turn = call_turn(st, p.fast_end);
    lemma_prefix(script, end.script, p.slow_end.script);
    lemma_prefix(script, p.slow_end.script, turn.script);
    assert(extends(turn.script, p.fast_end.script));
    lemma_prefix(script, turn.script, p.fast_end.script);
    lemma_prefix(script, p.fast_end.script, p.st.script);
    assert(call_around(script, n, f, c, count, p.arity, p.fast, p.slow)) by {
        lemma_around_kept(script, end.script, n, f, c, count, p.arity, p.fast, p.slow);
    }
    let (s1, arity) = st.closure_slot(clos, 2);
    let (s2, entry) = s1.closure_slot(clos, 1);
    assert(extends(p.st.script, s2.script));
    assert(extends(s2.script, s1.script));
    lemma_prefix(script, p.st.script, s2.script);
    lemma_prefix(script, s2.script, s1.script);
    let m1 = lemma_slot(st, clos, 2, script, m);
    let m2 = lemma_slot(s1, clos, 1, script, m1);
    lemma_goes_on(m, m1, m2, n, n + 3);
    assert(m2.value(arity) == slot_of(gc, m.store(), m.value(clos), 2));
    let m3 = lemma_call_enter(script, n, f, c, count, arity, p.fast, p.slow, m2);
    lemma_goes_on(m, m2, m3, n, n + 9);
    assert(m3.value(clos) == m.value(clos));
    assert(m3.value(entry) == slot_of(gc, m.store(), m.value(clos), 1));
    assert(words_of(m3, vs) =~= words_of(m, vs)) by {
        assert forall|k: int| 0 <= k < vs.len() implies m3.value(#[trigger] vs[k]) == m.value(vs[k]) by {
            assert(ready(st, vs[k]));
        }
    }
    let direct = m2.value(arity) == count;
    let (at, mid, answer) = if direct {
        assert forall|k: int| 0 <= k < vs.len() implies ready(p.st, #[trigger] vs[k]) by {
            assert(ready(st, vs[k]));
        }
        let mid = lemma_fast(p.st, clos, entry, args, vs, script, m3);
        (f, mid, entered(gc, m.code, m.value(clos), words_of(m, vs), m.store()))
    } else {
        assert forall|k: int| 0 <= k < vs.len() implies ready(turn, #[trigger] vs[k]) by {
            assert(ready(st, vs[k]));
        }
        let mid = lemma_chain(turn, clos, fun_ty, args, vs, 0, script, m3);
        assert(words_of(m3, vs).skip(0) =~= words_of(m, vs));
        (c, mid, chained(gc, m.code, m.value(clos), words_of(m, vs), m.store()))
    };
    if let Answer::Word(w, s) = answer {
        let after = lemma_call_leave(script, n, f, c, count, arity, p.fast, p.slow, direct, mid);
        lemma_goes_on(m, m3, mid, n, if direct { n + 12 } else { f + 2 });
        lemma_goes_on(m, mid, after, n, c + 2);
        after
    } else {
        mid
    }
}

proof fn lemma_around_kept(
    script: Seq<Cmd>,
    part: Seq<Cmd>,
    n: int,
    f: int,
    c: int,
    count: u64,
    arity: Val,
    fast: Val,
    slow: Val,
)
    requires
        extends(script, part),
        call_around(part, n, f, c, count, arity, fast, slow),
    ensures
        call_around(script, n, f, c, count, arity, fast, slow),
{
    assert forall|i: int| 0 <= i < part.len() implies #[trigger] script[i] == part[i] by {
        assert(script[i] == part[i]);
    }
}

pub(crate) proof fn lemma_call_small(st: St, clos: Val, args: Seq<CallArg>, vs: Seq<Val>, fun_ty: Rc<Type>)
    requires
        0 < args.len() == vs.len(),
        st.call_by_arity(clos, args, vs, fun_ty, Ty::I64) is Ok,
    ensures
        st.script.len() + 12 + args.len() <= st.call_by_arity(clos, args, vs, fun_ty, Ty::I64)->Ok_0.0.script.len(),
{
    let (s0, arity, entry) = call_head(st, clos, args.len() as u64);
    let (fast_end, fast) = s0.fast_call(clos, entry, args, vs, Ty::I64)->Ok_0;
    lemma_fast_len(s0, clos, entry, args, vs);
    let s1 = st.closure_slot(clos, 2).0.closure_slot(clos, 1).0.new_block("call.fast").0;
    let turn = fast_end.br(s1.new_block("call.curried").0.here()).at(s1.here());
    lemma_chain_len(turn, clos, fun_ty, args, vs, 0);
}

/// A saturated call comes to what applying its function to the arguments one by
/// one does, whichever of its two paths it takes.
pub proof fn a_saturated_call_is_the_curried_chain(
    st: St,
    fun: Val,
    args: Seq<CallArg>,
    vs: Seq<Val>,
    fun_ty: Rc<Type>,
    script: Seq<Cmd>,
    m: Machine,
) -> (after: Machine)
    requires
        0 < args.len() == vs.len(),
        ready(st, fun),
        forall|k: int| 0 <= k < vs.len() ==> ready(st, #[trigger] vs[k]),
        m.args.len() == 0,
        honest(st.cx.gc, m.code, m.value(fun), words_of(m, vs), m.store()),
        st.call_by_arity(fun, args, vs, fun_ty, Ty::I64) is Ok,
        st.call_by_arity(fun, args, vs, fun_ty, Ty::I64)->Ok_0.0.script.len() + 64 <= u64::MAX,
        extends(script, st.call_by_arity(fun, args, vs, fun_ty, Ty::I64)->Ok_0.0.script),
    ensures
        answers_so(
            script,
            st.script.len() as int,
            m,
            st.call_by_arity(fun, args, vs, fun_ty, Ty::I64)->Ok_0.0.script.len() as int,
            st.call_by_arity(fun, args, vs, fun_ty, Ty::I64)->Ok_0.1,
            picked(st.cx.gc, m.code, m.value(fun), words_of(m, vs), m.store()),
            after,
        ),
        alike(
            picked(st.cx.gc, m.code, m.value(fun), words_of(m, vs), m.store()),
            chained(st.cx.gc, m.code, m.value(fun), words_of(m, vs), m.store()),
        ),
{
    a_saturated_call_goes_by_arity(st, fun, args, vs, fun_ty, script, m)
}

/// A closure without an uncurried entry is applied to its arguments one by one.
pub proof fn a_closure_without_an_uncurried_entry_is_honest(
    gc: bool,
    code: Code,
    clos: u64,
    args: Seq<u64>,
    s: Store,
)
    requires
        slot_of(gc, s, clos, 2) == 0,
        args.len() > 0,
    ensures
        honest(gc, code, clos, args, s),
        picked(gc, code, clos, args, s) == chained(gc, code, clos, args, s),
{
}

/// The operands of arguments that are no texts take no code.
pub(crate) proof fn lemma_arg_vals(st: St, args: Seq<CallArg>, i: nat, done: Seq<Val>)
    requires
        i <= args.len(),
        forall|k: int| 0 <= k < args.len() ==> !((#[trigger] args[k]).value is Str),
        st.arg_vals(args, i, done) is Ok,
    ensures
        forall|k: int| i <= k < args.len() ==> st.atom((#[trigger] args[k]).value) is Ok,
        st.arg_vals(args, i, done)->Ok_0.0 == st,
        st.arg_vals(args, i, done)->Ok_0.1 == done + Seq::new(
            args.len(),
            |k: int| st.atom(args[k].value)->Ok_0.1,
        ).skip(i as int),
    decreases args.len() - i,
{
    let vals = Seq::new(args.len(), |k: int| st.atom(args[k].value)->Ok_0.1);
    if i < args.len() {
        lemma_atom(st, args[i as int].value);
        let v = st.atom(args[i as int].value)->Ok_0.1;
        assert(vals[i as int] == v);
        lemma_arg_vals(st, args, i + 1, done.push(v));
        assert(done.push(v) + vals.skip((i + 1) as int) =~= done + vals.skip(i as int));
    } else {
        assert(done + vals.skip(i as int) =~= done);
    }
}

/// The words of the arguments of a call.
pub open spec fn call_words(args: Seq<CallArg>, vars: Vars) -> Seq<u64> {
    Seq::new(args.len(), |i: int| atom_word(args[i].value, vars))
}

/// The call of a function with all its arguments, as it is lowered, comes to what the
/// function does to the words of the arguments one by one. Each argument is
/// evaluated once, before the call picks its path.
pub proof fn a_call_comes_to_what_its_curried_chain_does(
    st: St,
    fun: Atom,
    args: Seq<CallArg>,
    fun_ty: Rc<Type>,
    ret_ty: Rc<Type>,
    vars: Vars,
    script: Seq<Cmd>,
    m: Machine,
) -> (after: Machine)
    requires
        args.len() > 0,
        !(fun is Str),
        forall|k: int| 0 <= k < args.len() ==> !((#[trigger] args[k]).value is Str),
        env_ready(st),
        models(st, m, vars),
        honest(st.cx.gc, m.code, atom_word(fun, vars), call_words(args, vars), m.store()),
        abi_ty(ret_ty) == Ok::<Ty, CodegenError>(Ty::I64),
        st.call_all(fun, args, fun_ty, ret_ty) is Ok,
        st.call_all(fun, args, fun_ty, ret_ty)->Ok_0.0.script.len() + 64 <= u64::MAX,
        extends(script, st.call_all(fun, args, fun_ty, ret_ty)->Ok_0.0.script),
    ensures
        answers_so(
            script,
            st.script.len() as int,
            m,
            st.call_all(fun, args, fun_ty, ret_ty)->Ok_0.0.script.len() as int,
            st.call_all(fun, args, fun_ty, ret_ty)->Ok_0.1,
            picked(st.cx.gc, m.code, atom_word(fun, vars), call_words(args, vars), m.store()),
            after,
        ),
        alike(
            picked(st.cx.gc, m.code, atom_word(fun, vars), call_words(args, vars), m.store()),
            chained(st.cx.gc, m.code, atom_word(fun, vars), call_words(args, vars), m.store()),
        ),
{
    let vs = Seq::new(args.len(), |k: int| st.atom(args[k].value)->Ok_0.1);
    lemma_cell(st, fun, "function value");
    let clos = st.atom(fun)->Ok_0.1;
    lemma_arg_vals(st, args, 0, Seq::empty());
    assert(Seq::<Val>::empty() + vs.skip(0) =~= vs);
    lemma_atom_word(st, fun, m, vars);
    lemma_atom_ready(st, fun);
    assert forall|k: int| 0 <= k < vs.len() implies ready(st, #[trigger] vs[k]) by {
        lemma_atom_ready(st, args[k].value);
    }
    assert(words_of(m, vs) =~= call_words(args, vars)) by {
        assert forall|k: int| 0 <= k < vs.len() implies m.value(#[trigger] vs[k]) == atom_word(
            args[k].value,
            vars,
        ) by {
            lemma_atom_word(st, args[k].value, m, vars);
        }
    }
    a_saturated_call_is_the_curried_chain(st, clos, args, vs, fun_ty, script, m)
}

} // verus!
