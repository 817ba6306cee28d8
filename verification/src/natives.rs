//! What is proved of calls of foreign functions: they are handed native values, and what
//! they return is a number of the language.
use crate::calls::native_ty;
use crate::error::CodegenError;
use crate::floats::{further, lemma_at_once, native_word, operand, operand_val};
use crate::ir::{Atom, ExternAbi, Width};
use crate::lanes::{cell_at_hand, cells_at_hand};
use crate::masks::{lemma_passes, lemma_prefix, passes};
use crate::meaning::{extends, low_bits, ready, run, signed, word, Machine};
use crate::state::St;
use crate::target::{Callee, Cmd, Ty, Val};
use vstd::prelude::*;

verus! {

/// The bits of a cell that are handed to a parameter of a native class.
pub open spec fn handed(x: u64, w: Width) -> u64 {
    match w {
        Width::I32 | Width::U32 | Width::F32 => (x as int % 0x1_0000_0000) as u64,
        Width::W64 | Width::F64 => x,
    }
}

/// A cell holds what a function of a native class returned: a signed number of 32 bits
/// keeps its sign, and nothing else is put above what was returned.
pub open spec fn received(cell: u64, returned: u64, w: Width) -> bool {
    match w {
        Width::I32 => -0x8000_0000 <= signed(cell) < 0x8000_0000 && signed(cell) % 0x1_0000_0000
            == returned as int % 0x1_0000_0000,
        Width::U32 | Width::F32 => cell as int == returned as int % 0x1_0000_0000,
        Width::W64 | Width::F64 => cell == returned,
    }
}

/// What the parameters are handed, as far as there are operands.
pub open spec fn all_handed(st: St, m: Machine, args: Seq<Atom>, params: Seq<Width>) -> Seq<u64> {
    Seq::new(
        if args.len() < params.len() {
            args.len()
        } else {
            params.len()
        },
        |i: int| handed(operand(st, m, args[i]), params[i]),
    )
}

proof fn lemma_params(st: St, params: Seq<Width>, n: nat, script: Seq<Cmd>, m: Machine)
    requires
        n <= params.len(),
        extends(script, st.native_params(params, n).script),
    ensures
        st.native_params(params, n).script.len() == st.script.len() + n,
        st.native_params(params, n).cx == st.cx,
        extends(st.native_params(params, n).script, st.script),
        run(script, st.script.len() as int, m) == run(script, st.script.len() as int + n, m),
    decreases n,
{
    if n > 0 {
        let before = st.native_params(params, (n - 1) as nat);
        let end = st.native_params(params, n);
        assert(extends(end.script, before.script));
        lemma_prefix(script, before, end);
        lemma_params(st, params, (n - 1) as nat, script, m);
        lemma_prefix(end.script, st, before);
        let k = before.script.len() as int;
        assert(script[k] == end.script[k]);
        assert(run(script, k, m) == run(script, k + 1, m));
    }
}

/// A cell as a native argument.
proof fn lemma_to_native(st: St, v: Val, w: Width, script: Seq<Cmd>, m: Machine) -> (after: Machine)
    requires
        st.script.len() + 8 <= u64::MAX,
        v.ty is I64,
        ready(st, v),
        extends(script, st.to_native(v, w).0.script),
    ensures
        ({
            let (end, r) = st.to_native(v, w);
            &&& st.script.len() <= end.script.len() <= st.script.len() + 2
            &&& end.cx == st.cx
            &&& extends(end.script, st.script)
            &&& ready(end, r)
            &&& passes(script, st.script.len() as int, m, end.script.len() as int, after)
            &&& after.value(r) == handed(m.value(v), w)
            &&& after.foreign == m.foreign
        }),
{
    reveal(further);
    let n = st.script.len() as int;
    let (end, r) = st.to_native(v, w);
    let x = m.value(v);
    let low = low_bits(x, Ty::I32);
    match w {
        Width::I32 | Width::U32 => {
            assert(script[n] == end.script[n]);
            let after = m.set(n, low);
            assert(run(script, n, m) == run(script, n + 1, after));
            after
        },
        Width::W64 => m,
        Width::F32 => {
            assert(script[n] == end.script[n] && script[n + 1] == end.script[n + 1]);
            let m1 = m.set(n, low);
            let after = m1.set(n + 1, low);
            assert(run(script, n, m) == run(script, n + 1, m1));
            assert(run(script, n + 1, m1) == run(script, n + 2, after));
            after
        },
        Width::F64 => {
            assert(script[n] == end.script[n]);
            let after = m.set(n, x);
            assert(run(script, n, m) == run(script, n + 1, after));
            after
        },
    }
}

/// A native result as a cell.
proof fn lemma_from_native(st: St, v: Val, w: Width, script: Seq<Cmd>, m: Machine) -> (after: Machine)
    requires
        st.script.len() + 8 <= u64::MAX,
        v.ty == native_ty(w),
        v.ty is I32 || v.ty is F32 ==> m.value(v) < 0x1_0000_0000,
        ready(st, v),
        extends(script, st.from_native(v, w).0.script),
    ensures
        ({
            let (end, r) = st.from_native(v, w);
            &&& st.script.len() <= end.script.len() <= st.script.len() + 2
            &&& r.ty is I64
            &&& passes(script, st.script.len() as int, m, end.script.len() as int, after)
            &&& received(after.value(r), m.value(v), w)
        }),
{
    reveal(further);
    let n = st.script.len() as int;
    let (end, r) = st.from_native(v, w);
    let x = m.value(v);
    match w {
        Width::I32 => {
            assert(script[n] == end.script[n]);
            let number = crate::floats::signed_narrow(x, Ty::I32);
            let after = m.set(n, word(number));
            assert(-0x8000_0000 <= number < 0x8000_0000);
            assert(signed(word(number)) == number);
            assert(number % 0x1_0000_0000 == x as int % 0x1_0000_0000);
            assert(run(script, n, m) == run(script, n + 1, after));
            after
        },
        Width::U32 => {
            assert(script[n] == end.script[n]);
            let after = m.set(n, x);
            assert(run(script, n, m) == run(script, n + 1, after));
            after
        },
        Width::W64 => m,
        Width::F32 => {
            assert(script[n] == end.script[n] && script[n + 1] == end.script[n + 1]);
            let m1 = m.set(n, x);
            let after = m1.set(n + 1, x);
            assert(run(script, n, m) == run(script, n + 1, m1));
            assert(run(script, n + 1, m1) == run(script, n + 2, after));
            after
        },
        Width::F64 => {
            assert(script[n] == end.script[n]);
            let after = m.set(n, x);
            assert(run(script, n, m) == run(script, n + 1, after));
            after
        },
    }
}

proof fn lemma_args_len(st: St, args: Seq<Atom>, params: Seq<Width>, i: nat, done: Seq<Val>)
    requires
        cells_at_hand(st, args),
    ensures
        st.native_args(args, params, i, done) matches Ok((end, vs)) && st.script.len()
            <= end.script.len() && extends(end.script, st.script) && end.cx == st.cx,
    decreases args.len() - i,
{
    if i < args.len() && i < params.len() {
        assert(cell_at_hand(st, args[i as int]));
        let v = operand_val(st, args[i as int]);
        let (st1, native) = st.to_native(v, params[i as int]);
        assert(extends(st1.script, st.script));
        assert(cells_at_hand(st1, args)) by {
            assert forall|j: int| 0 <= j < args.len() implies cell_at_hand(st1, #[trigger] args[j]) by {
                assert(cell_at_hand(st, args[j]));
            }
        }
        lemma_args_len(st1, args, params, i + 1, done.push(native));
        let end = st1.native_args(args, params, i + 1, done.push(native))->Ok_0.0;
        lemma_prefix(end.script, st, st1);
    }
}

/// The native arguments from position `i` on.
#[verifier::rlimit(40)]
proof fn lemma_args(
    st: St,
    args: Seq<Atom>,
    params: Seq<Width>,
    i: nat,
    done: Seq<Val>,
    all: Seq<u64>,
    script: Seq<Cmd>,
    m: Machine,
) -> (after: Machine)
    requires
        cells_at_hand(st, args),
        i <= all.len(),
        done.len() == i,
        all == all_handed(st, m, args, params),
        st.script.len() + 2 * (all.len() - i) + 16 <= u64::MAX,
        forall|j: int|
            0 <= j < done.len() ==> ready(st, #[trigger] done[j]) && m.value(done[j]) == all[j],
        extends(script, st.native_args(args, params, i, done)->Ok_0.0.script),
    ensures
        st.native_args(args, params, i, done) matches Ok((end, vs)) && vs.len() == all.len()
            && end.script.len() <= st.script.len() + 2 * (all.len() - i) && passes(
            script,
            st.script.len() as int,
            m,
            end.script.len() as int,
            after,
        ) && after.foreign == m.foreign && (forall|j: int|
            0 <= j < vs.len() ==> ready(end, #[trigger] vs[j]) && after.value(vs[j]) == all[j]),
    decreases args.len() - i,
{
    let n = st.script.len() as int;
    lemma_args_len(st, args, params, i, done);
    if i < args.len() && i < params.len() {
        let a = args[i as int];
        assert(cell_at_hand(st, a));
        lemma_at_once(st, m, a, "foreign argument");
        let v = operand_val(st, a);
        let (st1, native) = st.to_native(v, params[i as int]);
        let more = done.push(native);
        assert(extends(st1.script, st.script));
        assert(cells_at_hand(st1, args)) by {
            assert forall|j: int| 0 <= j < args.len() implies cell_at_hand(st1, #[trigger] args[j]) by {
                assert(cell_at_hand(st, args[j]));
            }
        }
        lemma_args_len(st1, args, params, i + 1, more);
        let end = st1.native_args(args, params, i + 1, more)->Ok_0.0;
        assert(st.native_args(args, params, i, done) == st1.native_args(args, params, i + 1, more));
        lemma_prefix(script, st1, end);
        let m1 = lemma_to_native(st, v, params[i as int], script, m);
        assert(all == all_handed(st1, m1, args, params)) by {
            assert forall|j: int| 0 <= j < all.len() implies all[j] == all_handed(
                st1,
                m1,
                args,
                params,
            )[j] by {
                assert(cell_at_hand(st, args[j]));
            }
            assert(all =~= all_handed(st1, m1, args, params));
        }
        assert forall|j: int| 0 <= j < more.len() implies ready(st1, #[trigger] more[j]) && m1.value(
            more[j],
        ) == all[j] by {
            if j < done.len() {
                assert(more[j] == done[j]);
                assert(ready(st, done[j]));
            }
        }
        let after = lemma_args(st1, args, params, i + 1, more, all, script, m1);
        lemma_passes(
            script,
            n,
            m,
            st1.script.len() as int,
            m1,
            end.script.len() as int,
            after,
        );
        after
    } else {
        m
    }
}

/// The arguments of a call are given.
proof fn lemma_given(st: St, vs: Seq<Val>, n: nat, script: Seq<Cmd>, m: Machine)
    requires
        n <= vs.len(),
        extends(script, st.push_args(vs, n).script),
    ensures
        st.push_args(vs, n).script.len() == st.script.len() + n,
        extends(st.push_args(vs, n).script, st.script),
        run(script, st.script.len() as int, m) == run(
            script,
            st.script.len() as int + n,
            Machine { args: m.args + Seq::new(n, |j: int| m.value(vs[j])), ..m },
        ),
    decreases n,
{
    if n > 0 {
        let before = st.push_args(vs, (n - 1) as nat);
        let end = st.push_args(vs, n);
        assert(extends(end.script, before.script));
        lemma_prefix(script, before, end);
        lemma_given(st, vs, (n - 1) as nat, script, m);
        lemma_prefix(end.script, st, before);
        let k = before.script.len() as int;
        let m1 = Machine { args: m.args + Seq::new((n - 1) as nat, |j: int| m.value(vs[j])), ..m };
        let m2 = Machine { args: m.args + Seq::new(n, |j: int| m.value(vs[j])), ..m };
        assert(script[k] == end.script[k]);
        assert(m1.value(vs[n - 1]) == m.value(vs[n - 1]));
        assert(m1.args.push(m.value(vs[n - 1])) =~= m2.args);
        assert(run(script, k, m1) == run(script, k + 1, m2));
    } else {
        assert(m.args + Seq::new(0, |j: int| m.value(vs[j])) =~= m.args);
    }
}

proof fn lemma_declared(st: St, sym: String, ret: Ty, script: Seq<Cmd>, m: Machine)
    requires
        extends(script, st.put(Cmd::Declare { name: sym, ret }).script),
    ensures
        run(script, st.script.len() as int, m) == run(script, st.script.len() as int + 1, m),
{
    let n = st.script.len() as int;
    assert(script[n] == st.put(Cmd::Declare { name: sym, ret }).script[n]);
    assert(further(script, n, m) == Some(m)) by {
        reveal(further);
    }
}

proof fn lemma_called(st: St, sym: String, ret: Ty, script: Seq<Cmd>, m: Machine) -> (after: Machine)
    requires
        extends(
            script,
            st.put(Cmd::Call { callee: Callee::Foreign(sym), ret, label: "winapi" }).script,
        ),
    ensures
        run(script, st.script.len() as int, m) == run(script, st.script.len() as int + 1, after),
        after == ({
            let (w, s) = (m.foreign)(sym@, m.args, m.store());
            m.back(st.script.len() as int, native_word(w, ret), s)
        }),
{
    let n = st.script.len() as int;
    let cmd = Cmd::Call { callee: Callee::Foreign(sym), ret, label: "winapi" };
    assert(script[n] == st.put(cmd).script[n]);
    let (w, s) = (m.foreign)(sym@, m.args, m.store());
    let after = m.back(n, native_word(w, ret), s);
    assert(further(script, n, m) == Some(after)) by {
        reveal(further);
    }
    after
}

/// The code in front of a foreign call: the arguments, and the state behind them.
pub open spec fn foreign_given(st: St, sym: String, args: Seq<Atom>, abi: ExternAbi) -> St {
    let declared = st.put(Cmd::Declare { name: sym, ret: native_ty(abi.ret) }).native_params(
        abi.params@,
        abi.params@.len(),
    );
    let (made, vs) = declared.native_args(args, abi.params@, 0, Seq::empty())->Ok_0;
    made.push_args(vs, vs.len())
}

/// In front of the call its arguments are given.
#[verifier::rlimit(40)]
proof fn lemma_foreign_given(
    st: St,
    sym: String,
    args: Seq<Atom>,
    abi: ExternAbi,
    script: Seq<Cmd>,
    m: Machine,
) -> (after: Machine)
    requires
        cells_at_hand(st, args),
        st.script.len() + 5 * abi.params@.len() + 64 <= u64::MAX,
        m.args.len() == 0,
        extends(script, foreign_given(st, sym, args, abi).script),
    ensures
        run(script, st.script.len() as int, m) == run(
            script,
            foreign_given(st, sym, args, abi).script.len() as int,
            after,
        ),
        st.script.len() <= foreign_given(st, sym, args, abi).script.len() <= st.script.len() + 4
            * abi.params@.len() + 1,
        after.args == all_handed(st, m, args, abi.params@),
        after.store() == m.store(),
        after.foreign == m.foreign,
        forall|i: u64| i < st.script.len() ==> after.regs[i] == #[trigger] m.regs[i],
{
    let params = abi.params@;
    let n = st.script.len() as int;
    let ret = native_ty(abi.ret);
    let st1 = st.put(Cmd::Declare { name: sym, ret });
    let st2 = st1.native_params(params, params.len());
    let (st3, vs) = st2.native_args(args, params, 0, Seq::empty())->Ok_0;
    let st4 = st3.push_args(vs, vs.len());
    lemma_params_len(st1, params, params.len());
    assert(cells_at_hand(st2, args)) by {
        assert forall|j: int| 0 <= j < args.len() implies cell_at_hand(st2, #[trigger] args[j]) by {
            assert(cell_at_hand(st, args[j]));
        }
    }
    lemma_args_len(st2, args, params, 0, Seq::empty());
    lemma_given_len(st3, vs, vs.len());
    lemma_prefix(script, st3, st4);
    lemma_prefix(script, st2, st3);
    lemma_prefix(script, st1, st2);
    lemma_declared(st, sym, ret, script, m);
    lemma_params(st1, params, params.len(), script, m);
    let all = all_handed(st, m, args, params);
    assert(all =~= all_handed(st2, m, args, params));
    let m3 = lemma_args(st2, args, params, 0, Seq::empty(), all, script, m);
    lemma_given(st3, vs, vs.len(), script, m3);
    let m4 = Machine { args: m3.args + Seq::new(vs.len(), |j: int| m3.value(vs[j])), ..m3 };
    assert(m4.args =~= all);
    m4
}

/// A call of a foreign function hands each parameter the bits of its operand that its
/// native class takes. The cell of the result holds the number that was returned: one of
/// 32 bits by its sign where it is signed and by zeros where it is not.
#[verifier::rlimit(60)]
#[verifier::spinoff_prover]
pub proof fn a_foreign_call_gives_the_number_that_was_returned(
    st: St,
    sym: String,
    args: Seq<Atom>,
    abi: ExternAbi,
    script: Seq<Cmd>,
    m: Machine,
) -> (after: Machine)
    requires
        cells_at_hand(st, args),
        st.script.len() + 5 * abi.params@.len() + 64 <= u64::MAX,
        m.args.len() == 0,
        st.foreign(sym, args, abi) matches Ok((end, _)) ==> extends(script, end.script),
    ensures
        st.foreign(sym, args, abi) matches Ok((end, v)) && v.ty is I64 && ({
            let (w, s) = (m.foreign)(sym@, all_handed(st, m, args, abi.params@), m.store());
            &&& received(after.value(v), w, abi.ret)
            &&& after.store() == s
        }) && run(script, st.script.len() as int, m) == run(
            script,
            end.script.len() as int,
            after,
        ) && (forall|i: u64| i < st.script.len() ==> after.regs[i] == #[trigger] m.regs[i]),
{
    let ret = native_ty(abi.ret);
    let given = foreign_given(st, sym, args, abi);
    let call = Cmd::Call { callee: Callee::Foreign(sym), ret, label: "winapi" };
    let (called, r) = given.def(call, ret);
    let (end, v) = called.from_native(r, abi.ret);
    lemma_foreign_is(st, sym, args, abi);
    assert(extends(end.script, called.script) && extends(called.script, given.script));
    lemma_prefix(script, called, end);
    lemma_prefix(script, given, called);
    let m1 = lemma_foreign_given(st, sym, args, abi, script, m);
    let m2 = lemma_called(given, sym, ret, script, m1);
    let after = lemma_from_native(called, r, abi.ret, script, m2);
    let (w, s) = (m.foreign)(sym@, all_handed(st, m, args, abi.params@), m.store());
    assert(m2.value(r) == native_word(w, ret));
    assert(received(after.value(v), w, abi.ret));
    assert(after.store() == s);
    assert forall|i: u64| i < st.script.len() implies after.regs[i] == #[trigger] m.regs[i] by {
        assert(m1.regs[i] == m.regs[i]);
        assert(m2.regs[i] == m1.regs[i]);
    }
    after
}

proof fn lemma_foreign_is(st: St, sym: String, args: Seq<Atom>, abi: ExternAbi)
    requires
        cells_at_hand(st, args),
    ensures
        ({
            let ret = native_ty(abi.ret);
            let (called, r) = foreign_given(st, sym, args, abi).def(
                Cmd::Call { callee: Callee::Foreign(sym), ret, label: "winapi" },
                ret,
            );
            st.foreign(sym, args, abi) == Ok::<(St, Val), CodegenError>(
                called.from_native(r, abi.ret),
            )
        }),
{
    let st1 = st.put(Cmd::Declare { name: sym, ret: native_ty(abi.ret) });
    let st2 = st1.native_params(abi.params@, abi.params@.len());
    lemma_params_len(st1, abi.params@, abi.params@.len());
    assert(cells_at_hand(st2, args)) by {
        assert forall|j: int| 0 <= j < args.len() implies cell_at_hand(st2, #[trigger] args[j]) by {
            assert(cell_at_hand(st, args[j]));
        }
    }
    lemma_args_len(st2, args, abi.params@, 0, Seq::empty());
}


proof fn lemma_params_len(st: St, params: Seq<Width>, n: nat)
    ensures
        st.native_params(params, n).script.len() == st.script.len() + n,
        st.native_params(params, n).cx == st.cx,
        extends(st.native_params(params, n).script, st.script),
    decreases n,
{
    if n > 0 {
        lemma_params_len(st, params, (n - 1) as nat);
        let before = st.native_params(params, (n - 1) as nat);
        let end = st.native_params(params, n);
        assert(extends(end.script, before.script));
        lemma_prefix(end.script, st, before);
    }
}

proof fn lemma_given_len(st: St, vs: Seq<Val>, n: nat)
    ensures
        st.push_args(vs, n).script.len() == st.script.len() + n,
        st.push_args(vs, n).cx == st.cx,
        extends(st.push_args(vs, n).script, st.script),
    decreases n,
{
    if n > 0 {
        lemma_given_len(st, vs, (n - 1) as nat);
        let before = st.push_args(vs, (n - 1) as nat);
        let end = st.push_args(vs, n);
        assert(extends(end.script, before.script));
        lemma_prefix(end.script, st, before);
    }
}

} // verus!
