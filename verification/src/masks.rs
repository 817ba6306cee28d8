//! What is proved of masks: a mask that is packed into a cell comes back.
use crate::ir::VectorShape;
use crate::meaning::{extends, keeps, ready, run, Lanes, Machine};
use crate::state::St;
use crate::target::{constant, Cmd, Conv, Id, IntOp, Ty, Val};
use vstd::prelude::*;

verus! {

/// The first `n` lanes as the low bits of a word.
pub open spec fn bits(lanes: Lanes, n: nat) -> u64
    decreases n,
{
    if n == 0 {
        0
    } else {
        bits(lanes, (n - 1) as nat) | (lanes[(n - 1) as u64] << ((n - 1) as u64))
    }
}

/// The first `n` lanes are each 0 or 1.
pub open spec fn is_mask(lanes: Lanes, n: nat) -> bool {
    forall|i: u64| i < n ==> #[trigger] lanes[i] <= 1
}

/// The first `n` lanes of a vector are these.
pub open spec fn has_lanes(m: Machine, v: Val, lanes: Lanes, n: nat) -> bool {
    forall|i: u64| i < n ==> #[trigger] m.vector(v)[i] == lanes[i]
}

/// The operand is a vector that was made, or passed, before.
pub open spec fn made_before(st: St, v: Val) -> bool {
    match v.id {
        Id::Reg(i) => i < st.script.len(),
        Id::Param { .. } => true,
        _ => false,
    }
}

/// One bit of a word.
pub open spec fn bit(w: u64, i: u64) -> u64 {
    (w >> i) & 1
}

proof fn lemma_low_bits(lanes: Lanes, n: nat)
    requires
        n <= 63,
        is_mask(lanes, n),
    ensures
        bits(lanes, n) >> (n as u64) == 0,
    decreases n,
{
    if n > 0 {
        lemma_low_bits(lanes, (n - 1) as nat);
        let a = bits(lanes, (n - 1) as nat);
        let k = (n - 1) as u64;
        let b = lanes[k];
        assert((a | (b << k)) >> ((k + 1) as u64) == 0) by (bit_vector)
            requires
                a >> k == 0,
                b <= 1,
                k < 63,
        ;
    } else {
        assert(0u64 >> 0u64 == 0) by (bit_vector);
    }
}

/// A bit of the packed word is the lane that was packed there.
proof fn lemma_bit(lanes: Lanes, n: nat, i: u64)
    requires
        n <= 63,
        is_mask(lanes, n),
        i < n,
    ensures
        bit(bits(lanes, n), i) == lanes[i],
    decreases n,
{
    let a = bits(lanes, (n - 1) as nat);
    let k = (n - 1) as u64;
    let b = lanes[k];
    if i < k {
        lemma_bit(lanes, (n - 1) as nat, i);
        assert(((a | (b << k)) >> i) & 1 == (a >> i) & 1) by (bit_vector)
            requires
                i < k,
                k < 63,
        ;
    } else {
        lemma_low_bits(lanes, (n - 1) as nat);
        assert(((a | (b << k)) >> k) & 1 == b) by (bit_vector)
            requires
                a >> k == 0,
                b <= 1,
                k < 63,
        ;
    }
}

/// The code goes on at `end`, with the vectors that were there and what lies before
/// `n` unchanged.
pub open spec fn passes(
    script: Seq<Cmd>,
    n: int,
    m: Machine,
    end: int,
    after: Machine,
) -> bool {
    &&& run(script, n, m) == run(script, end, after)
    &&& keeps(m, after, n)
    &&& after.wide == m.wide
    &&& after.floats == m.floats
    &&& forall|i: u64| i < n ==> after.lanes[i] == #[trigger] m.lanes[i]
}

pub(crate) proof fn lemma_passes(
    script: Seq<Cmd>,
    a: int,
    m: Machine,
    b: int,
    mid: Machine,
    c: int,
    after: Machine,
)
    requires
        a <= b,
        passes(script, a, m, b, mid),
        passes(script, b, mid, c, after),
    ensures
        passes(script, a, m, c, after),
{
    assert forall|i: u64| i < a implies after.regs[i] == #[trigger] m.regs[i] by {
        assert(mid.regs[i] == m.regs[i]);
        assert(after.regs[i] == mid.regs[i]);
    }
    assert forall|i: u64| i < a implies after.lanes[i] == #[trigger] m.lanes[i] by {
        assert(mid.lanes[i] == m.lanes[i]);
        assert(after.lanes[i] == mid.lanes[i]);
    }
}

/// A command that has a word as its value.
proof fn lemma_word(st: St, cmd: Cmd, script: Seq<Cmd>, m: Machine, w: u64) -> (after: Machine)
    requires
        st.script.len() + 1 <= u64::MAX,
        extends(script, st.put(cmd).script),
        match cmd {
            Cmd::Int { op: IntOp::Or, a, b, .. } => w == m.value(a) | m.value(b),
            Cmd::Int { op: IntOp::And, a, b, .. } => w == m.value(a) & m.value(b),
            Cmd::Int { op: IntOp::Shl, a, b, .. } => w == m.value(a) << m.value(b),
            Cmd::Int { op: IntOp::LShr, a, b, .. } => w == m.value(a) >> m.value(b),
            Cmd::Extract { vec, lane, .. } => w == m.vector(vec)[lane],
            Cmd::Convert { op: Conv::Zext, a, .. } => a.ty is I1 && w == m.value(a),
            Cmd::Convert { op: Conv::Trunc, a, ty: Ty::I1, .. } => w == m.value(a) % 2,
            _ => false,
        },
    ensures
        passes(script, st.script.len() as int, m, st.script.len() as int + 1, after),
        after == m.set(st.script.len() as int, w),
{
    let n = st.script.len() as int;
    assert(script[n] == st.put(cmd).script[n]);
    let after = m.set(n, w);
    assert(run(script, n, m) == run(script, n + 1, after));
    after
}

pub(crate) proof fn lemma_prefix(script: Seq<Cmd>, st: St, end: St)
    requires
        extends(script, end.script),
        extends(end.script, st.script),
    ensures
        extends(script, st.script),
{
    assert forall|i: int| 0 <= i < st.script.len() implies script[i] == #[trigger] st.script[i] by {
        assert(end.script[i] == st.script[i]);
    }
}

proof fn lemma_pack_len(st: St, v: Val, n: nat)
    ensures
        st.script.len() <= st.pack_lanes(v, n).0.script.len() <= st.script.len() + 4 * n,
        extends(st.pack_lanes(v, n).0.script, st.script),
    decreases n,
{
    if n > 0 {
        lemma_pack_len(st, v, (n - 1) as nat);
        let before = st.pack_lanes(v, (n - 1) as nat).0;
        let end = st.pack_lanes(v, n).0;
        assert(extends(end.script, before.script));
        lemma_prefix(end.script, st, before);
    }
}

/// Packing the first `n` lanes of a mask.
proof fn lemma_pack(st: St, v: Val, n: nat, script: Seq<Cmd>, m: Machine) -> (after: Machine)
    requires
        n <= 63,
        st.script.len() + 4 * n <= u64::MAX,
        made_before(st, v),
        extends(script, st.pack_lanes(v, n).0.script),
    ensures
        ({
            let (end, cell) = st.pack_lanes(v, n);
            &&& passes(script, st.script.len() as int, m, end.script.len() as int, after)
            &&& after.value(cell) == bits(m.vector(v), n)
            &&& ready(end, cell)
        }),
    decreases n,
{
    if n == 0 {
        m
    } else {
        let i = (n - 1) as u64;
        let start = st.script.len() as int;
        let (before, acc) = st.pack_lanes(v, (n - 1) as nat);
        let (end, cell) = st.pack_lanes(v, n);
        let k = before.script.len() as int;
        lemma_pack_len(st, v, (n - 1) as nat);
        assert(extends(end.script, before.script));
        lemma_prefix(script, before, end);
        let m0 = lemma_pack(st, v, (n - 1) as nat, script, m);
        let lane = m0.vector(v)[i];
        assert(m0.vector(v) == m.vector(v)) by {
            if let Id::Reg(r) = v.id {
                assert(m0.lanes[r] == m.lanes[r]);
            }
        }
        let (st1, v1) = before.def(
            Cmd::Extract { vec: v, lane: i, label: "mask.pack.lane" },
            Ty::I1,
        );
        let (st2, v2) = st1.convert(Conv::Zext, v1, Ty::I64, "mask.pack.bit");
        assert(extends(end.script, st1.script));
        assert(extends(end.script, st2.script));
        lemma_prefix(script, st1, end);
        lemma_prefix(script, st2, end);
        let m1 = lemma_word(
            before,
            Cmd::Extract { vec: v, lane: i, label: "mask.pack.lane" },
            script,
            m0,
            lane,
        );
        lemma_passes(script, start, m, k, m0, k + 1, m1);
        let m2 = lemma_word(
            st1,
            Cmd::Convert { op: Conv::Zext, a: v1, ty: Ty::I64, label: "mask.pack.bit" },
            script,
            m1,
            lane,
        );
        lemma_passes(script, start, m, k + 1, m1, k + 2, m2);
        let low = bits(m.vector(v), (n - 1) as nat);
        assert(m2.value(acc) == low);
        if i == 0 {
            assert(lane << 0u64 == lane) by (bit_vector);
            let m3 = lemma_word(
                st2,
                Cmd::Int { op: IntOp::Or, a: acc, b: v2, label: "mask.pack.or" },
                script,
                m2,
                low | lane,
            );
            lemma_passes(script, start, m, k + 2, m2, k + 3, m3);
            m3
        } else {
            let (st3, v3) = st2.iop(IntOp::Shl, v2, constant(i), "mask.pack.shl");
            assert(extends(end.script, st3.script));
            lemma_prefix(script, st3, end);
            let m3 = lemma_word(
                st2,
                Cmd::Int { op: IntOp::Shl, a: v2, b: constant(i), label: "mask.pack.shl" },
                script,
                m2,
                lane << i,
            );
            lemma_passes(script, start, m, k + 2, m2, k + 3, m3);
            assert(m3.value(acc) == low);
            let m4 = lemma_word(
                st3,
                Cmd::Int { op: IntOp::Or, a: acc, b: v3, label: "mask.pack.or" },
                script,
                m3,
                low | (lane << i),
            );
            lemma_passes(script, start, m, k + 3, m3, k + 4, m4);
            m4
        }
    }
}

proof fn lemma_unpack_len(st: St, cell: Val, shape: VectorShape, n: nat)
    ensures
        st.script.len() <= st.unpack_lanes(cell, shape, n).0.script.len() <= st.script.len() + 4 * n,
        extends(st.unpack_lanes(cell, shape, n).0.script, st.script),
        n > 0 ==> st.script.len() < st.unpack_lanes(cell, shape, n).0.script.len(),
    decreases n,
{
    if n > 0 {
        lemma_unpack_len(st, cell, shape, (n - 1) as nat);
        let before = st.unpack_lanes(cell, shape, (n - 1) as nat).0;
        let end = st.unpack_lanes(cell, shape, n).0;
        assert(extends(end.script, before.script));
        lemma_prefix(end.script, st, before);
    }
}

/// Unpacking the first `n` lanes of a mask.
proof fn lemma_unpack(
    st: St,
    cell: Val,
    shape: VectorShape,
    n: nat,
    script: Seq<Cmd>,
    m: Machine,
) -> (after: Machine)
    requires
        n <= 63,
        st.script.len() + 4 * n <= u64::MAX,
        ready(st, cell),
        extends(script, st.unpack_lanes(cell, shape, n).0.script),
    ensures
        ({
            let (end, vec) = st.unpack_lanes(cell, shape, n);
            &&& passes(script, st.script.len() as int, m, end.script.len() as int, after)
            &&& vec.id is Undef || (vec.id matches Id::Reg(r) && r < end.script.len())
            &&& forall|i: u64| i < n ==> #[trigger] after.vector(vec)[i] == bit(m.value(cell), i)
        }),
    decreases n,
{
    if n == 0 {
        m
    } else {
        let i = (n - 1) as u64;
        let w = m.value(cell);
        let start = st.script.len() as int;
        let (before, vec) = st.unpack_lanes(cell, shape, (n - 1) as nat);
        let (end, made) = st.unpack_lanes(cell, shape, n);
        let k = before.script.len() as int;
        lemma_unpack_len(st, cell, shape, (n - 1) as nat);
        assert(extends(end.script, before.script));
        lemma_prefix(script, before, end);
        let m0 = lemma_unpack(st, cell, shape, (n - 1) as nat, script, m);
        assert(m0.value(cell) == w);
        let (st1, down, m1) = if i == 0 {
            assert(w >> 0u64 == w) by (bit_vector);
            (before, cell, m0)
        } else {
            let (st1, down) = before.iop(IntOp::LShr, cell, constant(i), "mask.unpack.shr");
            assert(extends(end.script, st1.script));
            lemma_prefix(script, st1, end);
            let m1 = lemma_word(
                before,
                Cmd::Int { op: IntOp::LShr, a: cell, b: constant(i), label: "mask.unpack.shr" },
                script,
                m0,
                w >> i,
            );
            lemma_passes(script, start, m, k, m0, k + 1, m1);
            (st1, down, m1)
        };
        let k1 = st1.script.len() as int;
        assert(m1.value(down) == w >> i);
        assert(m1.lanes == m0.lanes);
        let (st2, low) = st1.iop(IntOp::And, down, constant(1), "mask.unpack.and");
        assert(extends(end.script, st2.script));
        lemma_prefix(script, st2, end);
        let m2 = lemma_word(
            st1,
            Cmd::Int { op: IntOp::And, a: down, b: constant(1), label: "mask.unpack.and" },
            script,
            m1,
            bit(w, i),
        );
        lemma_passes(script, start, m, k1, m1, k1 + 1, m2);
        let (st3, lane) = st2.convert(Conv::Trunc, low, Ty::I1, "mask.unpack.bit");
        assert(extends(end.script, st3.script));
        lemma_prefix(script, st3, end);
        assert(((w >> i) & 1) % 2 == (w >> i) & 1) by (bit_vector);
        let m3 = lemma_word(
            st2,
            Cmd::Convert { op: Conv::Trunc, a: low, ty: Ty::I1, label: "mask.unpack.bit" },
            script,
            m2,
            bit(w, i),
        );
        lemma_passes(script, start, m, k1 + 1, m2, k1 + 2, m3);
        assert(m3.vector(vec) == m0.vector(vec));
        let cmd = Cmd::Insert { vec, elem: lane, lane: i, label: "mask.unpack.ins" };
        assert(script[k1 + 2] == end.script[k1 + 2]);
        assert(end.script[k1 + 2] == cmd);
        let m4 = m3.made(k1 + 2, m3.vector(vec).insert(i, bit(w, i)));
        assert(run(script, k1 + 2, m3) == run(script, k1 + 3, m4));
        assert(passes(script, k1 + 2, m3, k1 + 3, m4));
        lemma_passes(script, start, m, k1 + 2, m3, k1 + 3, m4);
        assert forall|j: u64| j < n implies #[trigger] m4.vector(made)[j] == bit(w, j) by {
            if j < i {
                assert(m0.vector(vec)[j] == bit(w, j));
            }
        }
        m4
    }
}

/// A mask is packed into the low bits of a cell, one for each lane: the code leaves
/// everything as it was and has that word as its value.
pub proof fn a_mask_is_packed_into_bits(
    st: St,
    v: Val,
    shape: VectorShape,
    script: Seq<Cmd>,
    m: Machine,
)
    requires
        st.script.len() + 32 <= u64::MAX,
        made_before(st, v),
        extends(script, st.pack_lanes(v, shape.lane_count()).0.script),
    ensures
        exists|after: Machine| #[trigger]
            passes(
                script,
                st.script.len() as int,
                m,
                st.pack_lanes(v, shape.lane_count()).0.script.len() as int,
                after,
            ) && after.value(st.pack_lanes(v, shape.lane_count()).1) == bits(
                m.vector(v),
                shape.lane_count(),
            ),
{
    let after = lemma_pack(st, v, shape.lane_count(), script, m);
    assert(after.value(st.pack_lanes(v, shape.lane_count()).1) == bits(
        m.vector(v),
        shape.lane_count(),
    ));
}

/// A mask comes back from the cell it was packed into: the code that unpacks the cell
/// makes a mask with the lanes that were packed.
pub proof fn a_packed_mask_comes_back(
    st: St,
    cell: Val,
    shape: VectorShape,
    lanes: Lanes,
    script: Seq<Cmd>,
    m: Machine,
)
    requires
        st.script.len() + 32 <= u64::MAX,
        ready(st, cell),
        is_mask(lanes, shape.lane_count()),
        m.value(cell) == bits(lanes, shape.lane_count()),
        extends(script, st.unpack_lanes(cell, shape, shape.lane_count()).0.script),
    ensures
        exists|after: Machine| #[trigger]
            passes(
                script,
                st.script.len() as int,
                m,
                st.unpack_lanes(cell, shape, shape.lane_count()).0.script.len() as int,
                after,
            ) && has_lanes(
                after,
                st.unpack_lanes(cell, shape, shape.lane_count()).1,
                lanes,
                shape.lane_count(),
            ),
{
    let n = shape.lane_count();
    let after = lemma_unpack(st, cell, shape, n, script, m);
    let vec = st.unpack_lanes(cell, shape, n).1;
    assert forall|i: u64| i < n implies #[trigger] after.vector(vec)[i] == lanes[i] by {
        lemma_bit(lanes, n, i);
        assert(after.vector(vec)[i] == bit(m.value(cell), i));
    }
    assert(has_lanes(after, vec, lanes, n));
}

} // verus!
