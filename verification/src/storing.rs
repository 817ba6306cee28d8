//! What is proved of reference cells and of blocks of bytes: what is read is what was last
//! put there, and nothing else is changed.
use crate::error::CodegenError;
use crate::floats::{further, lemma_at_once, moved_bytes, operand, operand_val, set_bytes};
use crate::ir::{Atom, ValueLayout};
use crate::lanes::cell_at_hand;
use crate::layout::CaptureInfo;
use crate::masks::lemma_prefix;
use crate::meaning::{extends, low_bits, roomy, run, word, Machine};
use crate::state::St;
use crate::target::{Cmd, Ty, Val};
use crate::tuples::one_cell;
use vstd::prelude::*;

verus! {

// ── reference cells ──────────────────────────────────────────────────────
/// The machine goes on with what it knew before position `n`.
pub open spec fn carries_on(script: Seq<Cmd>, n: int, m: Machine, end: int, after: Machine) -> bool {
    &&& run(script, n, m) == run(script, end, after)
    &&& after.params == m.params
    &&& after.args.len() == 0
    &&& forall|i: u64| i < n ==> after.regs[i] == #[trigger] m.regs[i]
}

pub(crate) proof fn lemma_names()
    ensures
        "locus_gc_set_scalar"@ != "llvm.trap"@,
        "locus_gc_get_scalar"@ != "llvm.trap"@,
        "locus_gc_alloc"@ != "llvm.trap"@,
        "locus_gc_set_scalar"@ != "locus_alloc"@,
        "locus_gc_get_scalar"@ != "locus_gc_alloc"@,
        "locus_gc_get_scalar"@ != "llvm.sadd.with.overflow.i64"@,
        "locus_gc_get_scalar"@ != "llvm.ssub.with.overflow.i64"@,
        "locus_gc_get_scalar"@ != "llvm.smul.with.overflow.i64"@,
        "locus_gc_alloc"@ != "llvm.sadd.with.overflow.i64"@,
        "locus_gc_alloc"@ != "llvm.ssub.with.overflow.i64"@,
        "locus_gc_alloc"@ != "llvm.smul.with.overflow.i64"@,
{
    reveal_strlit("locus_gc_set_scalar");
    reveal_strlit("locus_gc_get_scalar");
    reveal_strlit("locus_gc_alloc");
    reveal_strlit("locus_alloc");
    reveal_strlit("llvm.trap");
    reveal_strlit("llvm.sadd.with.overflow.i64");
    reveal_strlit("llvm.ssub.with.overflow.i64");
    reveal_strlit("llvm.smul.with.overflow.i64");
    assert("locus_gc_set_scalar"@.len() == 19 && "locus_gc_get_scalar"@.len() == 19);
    assert("locus_gc_alloc"@.len() == 14 && "locus_alloc"@.len() == 11);
    assert("llvm.trap"@.len() == 9 && "llvm.sadd.with.overflow.i64"@.len() == 27);
    assert("llvm.ssub.with.overflow.i64"@.len() == 27);
    assert("llvm.smul.with.overflow.i64"@.len() == 27);
}

/// The word of a reference cell.
pub open spec fn held_by(m: Machine, cell: u64) -> u64 {
    m.objects[(cell, 0)]
}

/// What is read of a reference cell is the word that it holds.
pub proof fn a_reference_gives_what_it_holds(
    st: St,
    r: Atom,
    layout: ValueLayout,
    script: Seq<Cmd>,
    m: Machine,
) -> (after: Machine)
    requires
        roomy(st),
        one_cell(layout),
        cell_at_hand(st, r),
        m.args.len() == 0,
        st.ref_get(r, layout) matches Ok((end, _)) ==> extends(script, end.script),
    ensures
        st.ref_get(r, layout) matches Ok((end, v)) && carries_on(
            script,
            st.script.len() as int,
            m,
            end.script.len() as int,
            after,
        ) && after.value(v) == held_by(m, operand(st, m, r)) && after.store() == m.store(),
{
    lemma_at_once(st, m, r, "ref handle");
    reveal_with_fuel(St::get_words, 2);
    let obj = operand_val(st, r);
    let (end, v) = st.ref_get(r, layout)->Ok_0;
    assert(st.get_words(obj, 0, 1) == (st.gc_get_scalar(obj, 0).0, seq![
        st.gc_get_scalar(obj, 0).1,
    ])) by {
        assert(Seq::<Val>::empty().push(st.gc_get_scalar(obj, 0).1) =~= seq![
            st.gc_get_scalar(obj, 0).1,
        ]);
    }
    assert(end == st.gc_get_scalar(obj, 0).0);
    lemma_get(st, obj, 0, script, m)
}

/// A scalar cell of an object is set.
pub(crate) proof fn lemma_set(st: St, obj: Val, slot: u64, v: Val, script: Seq<Cmd>, m: Machine) -> (after: Machine)
    requires
        st.script.len() + 8 <= u64::MAX,
        m.args.len() == 0,
        extends(script, st.gc_set_scalar(obj, slot, v).script),
    ensures
        carries_on(
            script,
            st.script.len() as int,
            m,
            st.script.len() as int + 4,
            after,
        ),
        after.objects == m.objects.insert((m.value(obj), slot), m.value(v)),
        after.mem == m.mem,
        after.regs == m.regs,
{
    lemma_names();
    let n = st.script.len() as int;
    let end = st.gc_set_scalar(obj, slot, v);
    assert(script[n] == end.script[n] && script[n + 1] == end.script[n + 1] && script[n + 2]
        == end.script[n + 2] && script[n + 3] == end.script[n + 3]);
    let m1 = Machine { args: m.args.push(m.value(obj)), ..m };
    let m2 = Machine { args: m1.args.push(slot), ..m1 };
    let m3 = Machine { args: m2.args.push(m.value(v)), ..m2 };
    let after = Machine {
        objects: m.objects.insert((m.value(obj), slot), m.value(v)),
        args: Seq::empty(),
        ..m3
    };
    assert(m.args =~= Seq::<u64>::empty());
    assert(run(script, n, m) == run(script, n + 1, m1));
    assert(run(script, n + 1, m1) == run(script, n + 2, m2));
    assert(run(script, n + 2, m2) == run(script, n + 3, m3));
    assert(run(script, n + 3, m3) == run(script, n + 4, after));
    after
}

/// A scalar cell of an object is read.
proof fn lemma_get(st: St, obj: Val, slot: u64, script: Seq<Cmd>, m: Machine) -> (after: Machine)
    requires
        st.script.len() + 8 <= u64::MAX,
        m.args.len() == 0,
        extends(script, st.gc_get_scalar(obj, slot).0.script),
    ensures
        carries_on(
            script,
            st.script.len() as int,
            m,
            st.script.len() as int + 3,
            after,
        ),
        after.value(st.gc_get_scalar(obj, slot).1) == m.objects[(m.value(obj), slot)],
        after.store() == m.store(),
{
    lemma_names();
    let n = st.script.len() as int;
    let end = st.gc_get_scalar(obj, slot).0;
    assert(script[n] == end.script[n] && script[n + 1] == end.script[n + 1] && script[n + 2]
        == end.script[n + 2]);
    let h = m.value(obj);
    let m1 = Machine { args: m.args.push(h), ..m };
    let m2 = Machine { args: m1.args.push(slot), ..m1 };
    let after = m2.back(n + 2, m.objects[(h, slot)], m.store());
    assert(m.args =~= Seq::<u64>::empty());
    assert(run(script, n, m) == run(script, n + 1, m1));
    assert(run(script, n + 1, m1) == run(script, n + 2, m2));
    assert(run(script, n + 2, m2) == run(script, n + 3, after));
    after
}

/// A reference cell that is set holds the value, and every other one what it held.
pub proof fn a_reference_that_is_set_holds_the_value(
    st: St,
    r: Atom,
    val: Atom,
    layout: ValueLayout,
    script: Seq<Cmd>,
    m: Machine,
) -> (after: Machine)
    requires
        roomy(st),
        one_cell(layout),
        cell_at_hand(st, r),
        cell_at_hand(st, val),
        m.args.len() == 0,
        st.ref_set(r, val, layout) matches Ok((end, _)) ==> extends(script, end.script),
    ensures
        st.ref_set(r, val, layout) matches Ok((end, v)) && carries_on(
            script,
            st.script.len() as int,
            m,
            end.script.len() as int,
            after,
        ) && held_by(after, operand(st, m, r)) == operand(st, m, val) && (forall|other: u64|
            other != operand(st, m, r) ==> #[trigger] held_by(after, other) == held_by(m, other))
            && after.mem == m.mem,
{
    lemma_at_once(st, m, r, "ref handle");
    lemma_at_once(st, m, val, "ref cell");
    let obj = operand_val(st, r);
    let v = operand_val(st, val);
    reveal_with_fuel(St::set_words, 2);
    assert(st.set_words(obj, 0, seq![v], 1) == st.gc_set_scalar(obj, 0, v));
    lemma_set(st, obj, 0, v, script, m)
}

/// A new reference cell holds its first value, and every other one what it held.
pub proof fn a_new_reference_holds_its_first_value(
    st: St,
    init: Atom,
    layout: ValueLayout,
    script: Seq<Cmd>,
    m: Machine,
) -> (after: Machine)
    requires
        roomy(st),
        one_cell(layout),
        cell_at_hand(st, init),
        m.args.len() == 0,
        st.ref_new(init, layout) matches Ok((end, _)) ==> extends(script, end.script),
    ensures
        st.ref_new(init, layout) matches Ok((end, v)) && carries_on(
            script,
            st.script.len() as int,
            m,
            end.script.len() as int,
            after,
        ) && held_by(after, after.value(v)) == operand(st, m, init) && (forall|other: u64|
            other != after.value(v) ==> #[trigger] held_by(after, other) == held_by(m, other))
            && after.mem == m.mem,
{
    lemma_at_once(st, m, init, "ref cell");
    lemma_names();
    let n = st.script.len() as int;
    let v = operand_val(st, init);
    let (st1, obj) = st.gc_alloc(0, 1);
    reveal_with_fuel(St::set_words, 2);
    assert(st1.set_words(obj, 0, seq![v], 1) == st1.gc_set_scalar(obj, 0, v));
    let end = st1.gc_set_scalar(obj, 0, v);
    assert(st.ref_new(init, layout) == Ok::<(St, Val), CodegenError>((end, obj)));
    assert(extends(end.script, st1.script));
    lemma_prefix(script, st1, end);
    assert(script[n] == st1.script[n] && script[n + 1] == st1.script[n + 1] && script[n + 2]
        == st1.script[n + 2]);
    let m1 = Machine { args: m.args.push(0), ..m };
    let m2 = Machine { args: m1.args.push(1), ..m1 };
    let at = (m.room)(word(1), m.store());
    let m3 = m2.back(n + 2, at, m.store());
    assert(m.args =~= Seq::<u64>::empty());
    assert(run(script, n, m) == run(script, n + 1, m1));
    assert(run(script, n + 1, m1) == run(script, n + 2, m2));
    assert(run(script, n + 2, m2) == run(script, n + 3, m3));
    assert(m3.value(v) == m.value(v));
    lemma_set(st1, obj, 0, v, script, m3)
}

// ── captures in the managed heap ─────────────────────────────────────────
/// A captured variable of one scalar cell.
pub open spec fn scalar_capture(st: St, cap: CaptureInfo) -> bool {
    &&& one_cell(cap.layout)
    &&& !(*cap.ty is Mask) && !(*cap.ty is Vector)
    &&& cap.gc_slot < u64::MAX
}

/// Where the program uses the managed heap, a captured word is stored into its own cell of
/// the closure, and no other cell is changed.
pub proof fn a_managed_closure_is_given_what_it_captures(
    st: St,
    clos: Val,
    cap: CaptureInfo,
    script: Seq<Cmd>,
    m: Machine,
) -> (after: Machine)
    requires
        roomy(st),
        st.cx.gc,
        scalar_capture(st, cap),
        st.cx.env.get(cap.name@) matches Some(e) && e.value.ty is I64,
        m.args.len() == 0,
        st.store_capture(clos, cap) matches Ok(end) ==> extends(script, end.script),
    ensures
        st.store_capture(clos, cap) matches Ok(end) && carries_on(
            script,
            st.script.len() as int,
            m,
            end.script.len() as int,
            after,
        ) && after.objects == m.objects.insert(
            (m.value(clos), cap.gc_slot),
            m.value(st.cx.env.get(cap.name@)->0.value),
        ) && after.mem == m.mem,
{
    let v = in_scope(st, cap.name@);
    reveal_with_fuel(St::set_words, 2);
    assert(st.set_words(clos, cap.gc_slot as nat, seq![v], 1) == st.gc_set_scalar(
        clos,
        cap.gc_slot,
        v,
    ));
    lemma_set(st, clos, cap.gc_slot, v, script, m)
}

/// What a variable stands for.
pub open spec fn in_scope(st: St, x: Seq<char>) -> Val {
    st.cx.env.get(x)->0.value
}

/// A function of the managed heap finds a captured word in the cell of its closure where it
/// was stored.
pub proof fn a_managed_function_finds_what_was_captured(
    st: St,
    env: Val,
    cap: CaptureInfo,
    script: Seq<Cmd>,
    m: Machine,
) -> (after: Machine)
    requires
        roomy(st),
        st.cx.gc,
        scalar_capture(st, cap),
        m.args.len() == 0,
        st.load_capture(env, cap) matches Ok((end, _)) ==> extends(script, end.script),
    ensures
        st.load_capture(env, cap) matches Ok((end, v)) && carries_on(
            script,
            st.script.len() as int,
            m,
            end.script.len() as int,
            after,
        ) && after.value(v) == m.objects[(m.value(env), cap.gc_slot)] && after.store() == m.store(),
{
    reveal_with_fuel(St::get_words, 2);
    let slot = cap.gc_slot;
    assert(st.get_words(env, slot as nat, 1) == (st.gc_get_scalar(env, slot).0, seq![
        st.gc_get_scalar(env, slot).1,
    ])) by {
        assert(Seq::<Val>::empty().push(st.gc_get_scalar(env, slot).1) =~= seq![
            st.gc_get_scalar(env, slot).1,
        ]);
    }
    lemma_get(st, env, slot, script, m)
}

// ── blocks of bytes ──────────────────────────────────────────────────────
/// The byte at an address.
pub open spec fn byte_at(mem: Map<u64, u64>, at: u64) -> u64 {
    low_bits(mem[at], Ty::I8)
}

proof fn lemma_set_bytes(mem: Map<u64, u64>, at: u64, byte: u64, n: nat, x: u64)
    requires
        at + n <= u64::MAX,
    ensures
        set_bytes(mem, at, byte, n)[x] == (if at <= x < at + n {
            byte
        } else {
            mem[x]
        }),
    decreases n,
{
    if n > 0 {
        lemma_set_bytes(mem, at, byte, (n - 1) as nat, x);
    }
}

proof fn lemma_moved_bytes(
    mem: Map<u64, u64>,
    from: Map<u64, u64>,
    to: u64,
    src: u64,
    n: nat,
    x: u64,
)
    requires
        to + n <= u64::MAX,
        src + n <= u64::MAX,
    ensures
        moved_bytes(mem, from, to, src, n)[x] == (if to <= x < to + n {
            byte_at(from, (src + (x - to)) as u64)
        } else {
            mem[x]
        }),
    decreases n,
{
    if n > 0 {
        lemma_moved_bytes(mem, from, to, src, (n - 1) as nat, x);
    }
}

/// Filling sets just the bytes of the block, each to the low byte of the value.
pub proof fn filling_sets_the_bytes_of_the_block(
    st: St,
    dst: Atom,
    byte: Atom,
    count: Atom,
    script: Seq<Cmd>,
    m: Machine,
) -> (after: Machine)
    requires
        roomy(st),
        cell_at_hand(st, dst),
        cell_at_hand(st, byte),
        cell_at_hand(st, count),
        operand(st, m, dst) + operand(st, m, count) <= u64::MAX,
        st.fill(dst, byte, count) matches Ok((end, _)) ==> extends(script, end.script),
    ensures
        st.fill(dst, byte, count) matches Ok((end, v)) && run(script, st.script.len() as int, m)
            == run(script, end.script.len() as int, after) && after.objects == m.objects && (forall|
            x: u64,
        |
            #[trigger] byte_at(after.mem, x) == (if operand(st, m, dst) <= x < operand(st, m, dst)
                + operand(st, m, count) {
                (operand(st, m, byte) as int % 0x100) as u64
            } else {
                byte_at(m.mem, x)
            })),
{
    lemma_at_once(st, m, dst, "memory operand");
    lemma_at_once(st, m, byte, "memory operand");
    lemma_at_once(st, m, count, "memory operand");
    let n = st.script.len() as int;
    let (d, b, c) = (operand(st, m, dst), operand(st, m, byte), operand(st, m, count));
    let end = st.fill(dst, byte, count)->Ok_0.0;
    assert(end.script.len() == n + 3);
    assert(script[n] == end.script[n] && script[n + 1] == end.script[n + 1] && script[n + 2]
        == end.script[n + 2]);
    let low = low_bits(b, Ty::I8);
    let m1 = m.set(n, d);
    let m2 = m1.set(n + 1, low);
    let after = Machine { mem: set_bytes(m.mem, d, low, c as nat), ..m2 };
    assert(m1.value(operand_val(st, byte)) == b);
    assert(m2.value(operand_val(st, count)) == c);
    assert(run(script, n, m) == run(script, n + 1, m1));
    assert(run(script, n + 1, m1) == run(script, n + 2, m2));
    assert(further(script, n + 2, m2) == Some(after)) by {
        reveal(further);
    }
    assert(run(script, n + 2, m2) == run(script, n + 3, after));
    assert forall|x: u64| #[trigger] byte_at(after.mem, x) == (if d <= x < d + c {
        (b as int % 0x100) as u64
    } else {
        byte_at(m.mem, x)
    }) by {
        lemma_set_bytes(m.mem, d, low, c as nat, x);
    }
    after
}

/// Copying gives the block the bytes that the other one had, though the two overlap, and
/// changes no other byte.
pub proof fn copying_gives_the_bytes_of_the_other_block(
    st: St,
    dst: Atom,
    src: Atom,
    count: Atom,
    script: Seq<Cmd>,
    m: Machine,
) -> (after: Machine)
    requires
        roomy(st),
        cell_at_hand(st, dst),
        cell_at_hand(st, src),
        cell_at_hand(st, count),
        operand(st, m, dst) + operand(st, m, count) <= u64::MAX,
        operand(st, m, src) + operand(st, m, count) <= u64::MAX,
        st.copy_bytes(dst, src, count) matches Ok((end, _)) ==> extends(script, end.script),
    ensures
        st.copy_bytes(dst, src, count) matches Ok((end, v)) && run(
            script,
            st.script.len() as int,
            m,
        ) == run(script, end.script.len() as int, after) && after.objects == m.objects && (forall|
            x: u64,
        |
            #[trigger] byte_at(after.mem, x) == (if operand(st, m, dst) <= x < operand(st, m, dst)
                + operand(st, m, count) {
                byte_at(m.mem, (operand(st, m, src) + (x - operand(st, m, dst))) as u64)
            } else {
                byte_at(m.mem, x)
            })),
{
    lemma_at_once(st, m, dst, "memory operand");
    lemma_at_once(st, m, src, "memory operand");
    lemma_at_once(st, m, count, "memory operand");
    let n = st.script.len() as int;
    let (d, s, c) = (operand(st, m, dst), operand(st, m, src), operand(st, m, count));
    let end = st.copy_bytes(dst, src, count)->Ok_0.0;
    assert(end.script.len() == n + 3);
    assert(script[n] == end.script[n] && script[n + 1] == end.script[n + 1] && script[n + 2]
        == end.script[n + 2]);
    let m1 = m.set(n, d);
    let m2 = m1.set(n + 1, s);
    let after = Machine { mem: moved_bytes(m.mem, m.mem, d, s, c as nat), ..m2 };
    assert(m1.value(operand_val(st, src)) == s);
    assert(m2.value(operand_val(st, count)) == c);
    assert(run(script, n, m) == run(script, n + 1, m1));
    assert(run(script, n + 1, m1) == run(script, n + 2, m2));
    assert(further(script, n + 2, m2) == Some(after)) by {
        reveal(further);
    }
    assert(run(script, n + 2, m2) == run(script, n + 3, after));
    assert forall|x: u64| #[trigger] byte_at(after.mem, x) == (if d <= x < d + c {
        byte_at(m.mem, (s + (x - d)) as u64)
    } else {
        byte_at(m.mem, x)
    }) by {
        lemma_moved_bytes(m.mem, m.mem, d, s, c as nat, x);
    }
    after
}

} // verus!
