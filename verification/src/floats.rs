//! What the commands on floats and vectors do, and what is proved of the code that the
//! generator emits for them.
use crate::error::CodegenError;
use crate::ir::{Atom, BinOp, CastOp};
use crate::masks::passes;
use crate::meaning::{
    extends, flag, low_bits, ready, roomy, run, signed, word, words_of_width, Lanes, Machine, Store,
};
use crate::state::St;
use crate::target::{constant, Callee, Cmd, Conv, FloatOp, FloatPred, Ty, Val};
use vstd::prelude::*;

verus! {

// ── floats as bits ───────────────────────────────────────────────────────
/// The arithmetic of the machine on the bits of floats. Where a class is given, it is
/// `F32` or `F64`; the functions without one are of `F64`.
pub struct Floats {
    pub sum: spec_fn(Ty, u64, u64) -> u64,
    /// The first without the second.
    pub difference: spec_fn(Ty, u64, u64) -> u64,
    pub product: spec_fn(Ty, u64, u64) -> u64,
    /// The first by the second.
    pub quotient: spec_fn(Ty, u64, u64) -> u64,
    pub root: spec_fn(Ty, u64) -> u64,
    /// The product of the first two and the third, rounded once.
    pub fused: spec_fn(Ty, u64, u64, u64) -> u64,
    /// The float nearest to an integer.
    pub of_int: spec_fn(int) -> u64,
    /// The integer of a float, without what is behind the point.
    pub to_int: spec_fn(u64) -> u64,
    /// The greatest whole float that is not above.
    pub floor: spec_fn(u64) -> u64,
    /// The nearest whole float.
    pub round: spec_fn(u64) -> u64,
    /// The nearest float of 32 bits.
    pub narrowed: spec_fn(u64) -> u64,
    /// The same float in 64 bits.
    pub widened: spec_fn(u64) -> u64,
}

/// What a foreign function returns, and what is stored then: by its name, on its
/// arguments.
pub type Foreign = spec_fn(Seq<char>, Seq<u64>, Store) -> (u64, Store);

/// The bits that have the sign of a float.
pub open spec fn sign_bit(ty: Ty) -> int {
    if ty is F32 {
        0x8000_0000
    } else {
        0x8000_0000_0000_0000
    }
}

/// The bits of an infinite float.
pub open spec fn infinite(ty: Ty) -> int {
    if ty is F32 {
        0x7f80_0000
    } else {
        0x7ff0_0000_0000_0000
    }
}

/// The bits of a float without its sign.
pub open spec fn magnitude(ty: Ty, bits: u64) -> int {
    bits as int % sign_bit(ty)
}

/// The bits are no number.
pub open spec fn no_number(ty: Ty, bits: u64) -> bool {
    magnitude(ty, bits) > infinite(ty)
}

/// Where a float stands in the order of floats: the two zeros stand at one place.
pub open spec fn rank(ty: Ty, bits: u64) -> int {
    if bits as int / sign_bit(ty) % 2 == 1 {
        -magnitude(ty, bits)
    } else {
        magnitude(ty, bits)
    }
}

/// Both are numbers.
pub open spec fn ordered(ty: Ty, a: u64, b: u64) -> bool {
    !no_number(ty, a) && !no_number(ty, b)
}

/// One float is less than another.
pub open spec fn less(ty: Ty, a: u64, b: u64) -> bool {
    ordered(ty, a, b) && rank(ty, a) < rank(ty, b)
}

/// Two floats are equal.
pub open spec fn level(ty: Ty, a: u64, b: u64) -> bool {
    ordered(ty, a, b) && rank(ty, a) == rank(ty, b)
}

// ── the commands ─────────────────────────────────────────────────────────
/// What a float command computes.
pub open spec fn float_computes(f: Floats, op: FloatOp, ty: Ty, a: u64, b: u64) -> u64 {
    match op {
        FloatOp::Add => (f.sum)(ty, a, b),
        FloatOp::Sub => (f.difference)(ty, a, b),
        FloatOp::Mul => (f.product)(ty, a, b),
        FloatOp::Div => (f.quotient)(ty, a, b),
    }
}

/// What a float test finds: nothing holds of what is no number.
pub open spec fn float_holds(pred: FloatPred, ty: Ty, a: u64, b: u64) -> bool {
    match pred {
        FloatPred::Oeq => level(ty, a, b),
        FloatPred::One => less(ty, a, b) || less(ty, b, a),
        FloatPred::Olt => less(ty, a, b),
        FloatPred::Ole => less(ty, a, b) || level(ty, a, b),
        FloatPred::Ogt => less(ty, b, a),
        FloatPred::Oge => less(ty, b, a) || level(ty, a, b),
    }
}

/// The number of a value of fewer bits than a cell, by its sign.
pub open spec fn signed_narrow(w: u64, ty: Ty) -> int {
    if w < words_of_width(ty) / 2 {
        w as int
    } else {
        w - words_of_width(ty)
    }
}

/// A scalar float.
pub open spec fn is_float(ty: Ty) -> bool {
    ty is F32 || ty is F64
}

/// A vector of floats.
pub open spec fn is_wide(ty: Ty) -> bool {
    ty is VecF32 || ty is VecF64
}

/// The class of the lanes of a vector.
pub open spec fn lane_class(ty: Ty) -> Ty {
    if ty is VecF32 {
        Ty::F32
    } else {
        Ty::F64
    }
}

/// How many lanes a vector has.
pub open spec fn width(ty: Ty) -> nat {
    match ty {
        Ty::VecF32(n) => n as nat,
        Ty::VecF64(n) => n as nat,
        Ty::Mask(n) => n as nat,
        _ => 0,
    }
}

/// The lanes that a function of their positions gives.
pub open spec fn lanes_of(n: nat, f: spec_fn(u64) -> u64) -> Lanes {
    Map::new(|i: u64| i < n, f)
}

/// The sum of the first `n` lanes, from positive zero on.
pub open spec fn total(f: Floats, ty: Ty, lanes: Lanes, n: nat) -> u64
    decreases n,
{
    if n == 0 {
        0
    } else {
        (f.sum)(ty, total(f, ty, lanes, (n - 1) as nat), lanes[(n - 1) as u64])
    }
}

/// The bytes of a lane.
pub open spec fn lane_step(ty: Ty) -> int {
    if ty is F32 {
        4
    } else {
        8
    }
}

/// What is read as a lane.
pub open spec fn lane_bits(w: u64, ty: Ty) -> u64 {
    if ty is F32 {
        low_bits(w, Ty::I32)
    } else {
        w
    }
}

/// The operand that was given so many commands before a call.
pub open spec fn given(script: Seq<Cmd>, pc: int, back: int) -> Val {
    script[pc - back]->Arg_val
}

/// What a conversion gives that is not described with the integers.
pub open spec fn converts(m: Machine, op: Conv, a: Val, ty: Ty) -> Option<u64> {
    match (op, a.ty, ty) {
        (Conv::Bits, Ty::I64, Ty::F64) => Some(m.value(a)),
        (Conv::Bits, Ty::F64, Ty::I64) => Some(m.value(a)),
        (Conv::Bits, Ty::I32, Ty::F32) => Some(m.value(a)),
        (Conv::Bits, Ty::F32, Ty::I32) => Some(m.value(a)),
        (Conv::Sext, Ty::I32, Ty::I64) => Some(word(signed_narrow(m.value(a), Ty::I32))),
        (Conv::SiToFp, Ty::I64, Ty::F64) => Some((m.floats.of_int)(signed(m.value(a)))),
        (Conv::FpToSi, Ty::F64, Ty::I64) => Some((m.floats.to_int)(m.value(a))),
        (Conv::FpTrunc, Ty::F64, Ty::F32) => Some((m.floats.narrowed)(m.value(a))),
        (Conv::FpExt, Ty::F32, Ty::F64) => Some((m.floats.widened)(m.value(a))),
        _ => None,
    }
}

/// The machine behind a call that gave a word.
pub open spec fn replied(m: Machine, pc: int, w: u64) -> Option<Machine> {
    Some(Machine { args: Seq::empty(), ..m.set(pc, w) })
}

/// What an intrinsic on floats does: its name ends in the class that it is for.
pub open spec fn scalar_intrinsic(m: Machine, pc: int, name: Seq<char>) -> Option<Machine> {
    if m.args.len() == 1 && name == "llvm.floor.f64"@ {
        replied(m, pc, (m.floats.floor)(m.args[0]))
    } else if m.args.len() == 1 && name == "llvm.round.f64"@ {
        replied(m, pc, (m.floats.round)(m.args[0]))
    } else if m.args.len() == 1 && name == "llvm.sqrt.f64"@ {
        replied(m, pc, (m.floats.root)(Ty::F64, m.args[0]))
    } else if m.args.len() == 1 && name == "llvm.sqrt.f32"@ {
        replied(m, pc, (m.floats.root)(Ty::F32, m.args[0]))
    } else if m.args.len() == 3 && name == "llvm.fma.f64"@ {
        replied(m, pc, (m.floats.fused)(Ty::F64, m.args[0], m.args[1], m.args[2]))
    } else if m.args.len() == 3 && name == "llvm.fma.f32"@ {
        replied(m, pc, (m.floats.fused)(Ty::F32, m.args[0], m.args[1], m.args[2]))
    } else {
        None
    }
}

/// What a function of the runtime does with an array of eight-byte elements, on an index
/// inside it: the first cell of the array is its length, the others are its elements.
pub open spec fn runtime_array(m: Machine, pc: int, name: Seq<char>) -> Option<Machine> {
    if m.args.len() == 1 && name == "locus_gc_len"@ {
        replied(m, pc, m.objects[(m.args[0], 0)])
    } else if m.args.len() == 3 && m.args[2] == 8 && m.args[1] < m.objects[(m.args[0], 0)] && name
        == "locus_gc_array_get_scalar_bytes"@ {
        replied(m, pc, m.objects[(m.args[0], (1 + m.args[1]) as u64)])
    } else if m.args.len() == 4 && m.args[2] == 8 && m.args[1] < m.objects[(m.args[0], 0)] && name
        == "locus_gc_array_set_scalar_bytes"@ {
        Some(
            Machine {
                objects: m.objects.insert((m.args[0], (1 + m.args[1]) as u64), m.args[3]),
                args: Seq::empty(),
                ..m
            },
        )
    } else {
        None
    }
}

/// The ending of the name of an intrinsic on vectors.
pub open spec fn vector_ending(ty: Ty) -> Seq<char> {
    match ty {
        Ty::VecF32(2) => ".v2f32"@,
        Ty::VecF32(4) => ".v4f32"@,
        Ty::VecF32(8) => ".v8f32"@,
        Ty::VecF64(2) => ".v2f64"@,
        Ty::VecF64(4) => ".v4f64"@,
        _ => ".v8f64"@,
    }
}

/// What an intrinsic on vectors does, which were given right before the call. Its name
/// ends in the number and the class of the lanes.
pub open spec fn vector_intrinsic(script: Seq<Cmd>, pc: int, m: Machine, name: Seq<char>) -> Option<
    Machine,
> {
    let v = given(script, pc, 1);
    let ty = lane_class(v.ty);
    let n = width(v.ty);
    let f = m.floats;
    if !is_wide(v.ty) {
        None
    } else if m.args.len() == 1 && name == "llvm.sqrt"@ + vector_ending(v.ty) {
        let x = m.vector(v);
        Some(
            Machine {
                args: Seq::empty(),
                ..m.made(pc, lanes_of(n, |i: u64| (f.root)(ty, x[i])))
            },
        )
    } else if m.args.len() == 3 && name == "llvm.fma"@ + vector_ending(v.ty) {
        let x = m.vector(given(script, pc, 3));
        let y = m.vector(given(script, pc, 2));
        let z = m.vector(v);
        Some(
            Machine {
                args: Seq::empty(),
                ..m.made(pc, lanes_of(n, |i: u64| (f.fused)(ty, x[i], y[i], z[i])))
            },
        )
    } else if m.args.len() == 2 && m.args[0] == 0 && name == "llvm.vector.reduce.fadd"@
        + vector_ending(v.ty) {
        replied(m, pc, total(f, ty, m.vector(v), n))
    } else {
        None
    }
}

/// What the other commands do that go on behind themselves.
#[verifier::opaque]
pub open spec fn further(script: Seq<Cmd>, pc: int, m: Machine) -> Option<Machine> {
    match script[pc] {
        Cmd::Declare { .. } => Some(m),
        Cmd::Float { op, a, b, .. } => if is_float(a.ty) {
            Some(m.set(pc, float_computes(m.floats, op, a.ty, m.value(a), m.value(b))))
        } else if is_wide(a.ty) {
            let x = m.vector(a);
            let y = m.vector(b);
            let f = m.floats;
            let ty = lane_class(a.ty);
            Some(
                m.made(
                    pc,
                    lanes_of(width(a.ty), |i: u64| float_computes(f, op, ty, x[i], y[i])),
                ),
            )
        } else {
            None
        },
        Cmd::FloatTest { pred, a, b, .. } => if is_float(a.ty) {
            Some(m.set(pc, flag(float_holds(pred, a.ty, m.value(a), m.value(b)))))
        } else if is_wide(a.ty) {
            let x = m.vector(a);
            let y = m.vector(b);
            let ty = lane_class(a.ty);
            Some(
                m.made(
                    pc,
                    lanes_of(width(a.ty), |i: u64| flag(float_holds(pred, ty, x[i], y[i]))),
                ),
            )
        } else {
            None
        },
        Cmd::Select { mask, yes, no, .. } => {
            let c = m.vector(mask);
            let x = m.vector(yes);
            let y = m.vector(no);
            Some(
                m.made(
                    pc,
                    lanes_of(
                        width(yes.ty),
                        |i: u64|
                            if c[i] != 0 {
                                x[i]
                            } else {
                                y[i]
                            },
                    ),
                ),
            )
        },
        Cmd::Convert { op, a, ty, .. } => match converts(m, op, a, ty) {
            Some(w) => Some(m.set(pc, w)),
            None => None,
        },
        Cmd::Load { ty, ptr, .. } => if is_wide(ty) {
            let at = m.value(ptr);
            let mem = m.mem;
            let lane = lane_class(ty);
            Some(
                m.made(
                    pc,
                    lanes_of(
                        width(ty),
                        |i: u64| lane_bits(mem[word(at + i * lane_step(lane))], lane),
                    ),
                ),
            )
        } else {
            None
        },
        Cmd::Memset { dst, byte, count } => Some(
            Machine { mem: set_bytes(m.mem, m.value(dst), m.value(byte), m.value(count) as nat), ..m },
        ),
        Cmd::Memmove { dst, src, count } => Some(
            Machine {
                mem: moved_bytes(
                    m.mem,
                    m.mem,
                    m.value(dst),
                    m.value(src),
                    m.value(count) as nat,
                ),
                ..m
            },
        ),
        Cmd::Call { callee: Callee::Known(name), .. } => match scalar_intrinsic(m, pc, name@) {
            Some(after) => Some(after),
            None => match runtime_array(m, pc, name@) {
                Some(after) => Some(after),
                None => vector_intrinsic(script, pc, m, name@),
            },
        },
        Cmd::Call { callee: Callee::Foreign(name), ret, .. } => {
            let (w, s) = (m.foreign)(name@, m.args, m.store());
            Some(m.back(pc, native_word(w, ret), s))
        },
        _ => None,
    }
}

/// The word that a function of a native class returns.
pub open spec fn native_word(w: u64, ty: Ty) -> u64 {
    if ty is I32 || ty is F32 {
        low_bits(w, Ty::I32)
    } else {
        w
    }
}

/// Memory with the first `n` bytes from an address on set.
pub open spec fn set_bytes(mem: Map<u64, u64>, at: u64, byte: u64, n: nat) -> Map<u64, u64>
    decreases n,
{
    if n == 0 {
        mem
    } else {
        set_bytes(mem, at, byte, (n - 1) as nat).insert(word(at + n - 1), byte)
    }
}

/// Memory with the first `n` bytes from an address on as others were.
pub open spec fn moved_bytes(
    mem: Map<u64, u64>,
    from: Map<u64, u64>,
    to: u64,
    src: u64,
    n: nat,
) -> Map<u64, u64>
    decreases n,
{
    if n == 0 {
        mem
    } else {
        moved_bytes(mem, from, to, src, (n - 1) as nat).insert(
            word(to + n - 1),
            low_bits(from[word(src + n - 1)], Ty::I8),
        )
    }
}

// ── operands ─────────────────────────────────────────────────────────────
/// The operand that a variable or a number is.
pub open spec fn operand_val(st: St, a: Atom) -> Val {
    match a {
        Atom::Int(n) => constant(n as u64),
        Atom::Float(bits) => constant(bits),
        Atom::Bool(b) => constant(if b { 1 } else { 0 }),
        Atom::Var(x) => st.cx.env.get(x@)->0.value,
        _ => constant(0),
    }
}

/// The word of an operand: the bits of a number, or what its variable stands for.
pub open spec fn operand(st: St, m: Machine, a: Atom) -> u64 {
    match a {
        Atom::Int(n) => n as u64,
        Atom::Float(bits) => bits,
        Atom::Bool(b) => flag(b),
        Atom::Var(x) => m.value(st.cx.env.get(x@)->0.value),
        _ => 0,
    }
}

/// The operand is no text, and what its variable stands for is there.
pub open spec fn at_once(st: St, a: Atom) -> bool {
    match a {
        Atom::Str(_) => false,
        Atom::Var(x) => st.cx.env.get(x@) matches Some(e) && ready(st, e.value),
        _ => true,
    }
}

pub(crate) proof fn lemma_at_once(st: St, m: Machine, a: Atom, context: &'static str)
    requires
        at_once(st, a),
    ensures
        st.atom(a) == Ok::<(St, Val), CodegenError>((st, operand_val(st, a))),
        st.cell(a, context) matches Ok(r) ==> r == (st, operand_val(st, a)) && operand_val(st, a).ty
            is I64,
        m.value(operand_val(st, a)) == operand(st, m, a),
        ready(st, operand_val(st, a)),
{
}

// ── scalar floats ────────────────────────────────────────────────────────
/// What an arithmetic operation of the language means on floats of a class.
pub open spec fn float_meaning(f: Floats, op: BinOp, ty: Ty, x: u64, y: u64) -> Option<u64> {
    match op {
        BinOp::Add => Some((f.sum)(ty, x, y)),
        BinOp::Sub => Some((f.difference)(ty, x, y)),
        BinOp::Mul => Some((f.product)(ty, x, y)),
        BinOp::Div => Some((f.quotient)(ty, x, y)),
        _ => None,
    }
}

/// What a comparison of the language means on floats of a class: it holds of numbers
/// alone.
pub open spec fn float_relation(op: BinOp, ty: Ty, x: u64, y: u64) -> Option<bool> {
    let (a, b) = (rank(ty, x), rank(ty, y));
    match op {
        BinOp::Eq => Some(ordered(ty, x, y) && a == b),
        BinOp::Ne => Some(ordered(ty, x, y) && a != b),
        BinOp::Lt => Some(ordered(ty, x, y) && a < b),
        BinOp::Le => Some(ordered(ty, x, y) && a <= b),
        BinOp::Gt => Some(ordered(ty, x, y) && a > b),
        BinOp::Ge => Some(ordered(ty, x, y) && a >= b),
        _ => None,
    }
}

/// What an operation of the language gives on two floats of 64 bits: none where it is no
/// operation on floats.
pub open spec fn float_gives(f: Floats, op: BinOp, x: u64, y: u64) -> Option<u64> {
    match (float_meaning(f, op, Ty::F64, x, y), float_relation(op, Ty::F64, x, y)) {
        (Some(w), _) => Some(w),
        (None, Some(b)) => Some(flag(b)),
        (None, None) => None,
    }
}

/// The code of a float operation computes what the operation gives on the bits of its
/// operands, the left one first; there is code for just the operations on floats.
pub proof fn float_code_computes_the_operation(
    st: St,
    op: BinOp,
    a: Atom,
    b: Atom,
    script: Seq<Cmd>,
    m: Machine,
) -> (after: Machine)
    requires
        roomy(st),
        at_once(st, a),
        at_once(st, b),
        operand_val(st, a).ty is I64,
        operand_val(st, b).ty is I64,
        st.float_bin(op, a, b) matches Ok((end, _)) ==> extends(script, end.script),
    ensures
        match float_gives(m.floats, op, operand(st, m, a), operand(st, m, b)) {
            None => st.float_bin(op, a, b) == Err::<(St, Val), CodegenError>(
                CodegenError::NotAFloatOp(op),
            ),
            Some(w) => st.float_bin(op, a, b) matches Ok((end, v)) && passes(
                script,
                st.script.len() as int,
                m,
                end.script.len() as int,
                after,
            ) && after.value(v) == w && v.ty is I64,
        },
{
    lemma_at_once(st, m, a, "float operand");
    lemma_at_once(st, m, b, "float operand");
    let n = st.script.len() as int;
    let x = operand(st, m, a);
    let y = operand(st, m, b);
    match float_gives(m.floats, op, x, y) {
        None => m,
        Some(w) => {
            reveal(further);
            let end = st.float_bin(op, a, b)->Ok_0.0;
            let m1 = m.set(n, x);
            let m2 = m1.set(n + 1, y);
            let m3 = m2.set(n + 2, w);
            let after = m3.set(n + 3, w);
            assert(end.script.len() == n + 4);
            assert(script[n] == end.script[n] && script[n + 1] == end.script[n + 1] && script[n + 2]
                == end.script[n + 2] && script[n + 3] == end.script[n + 3]);
            assert(m1.value(operand_val(st, b)) == y);
            assert(run(script, n, m) == run(script, n + 1, m1));
            assert(run(script, n + 1, m1) == run(script, n + 2, m2));
            assert(run(script, n + 2, m2) == run(script, n + 3, m3));
            assert(run(script, n + 3, m3) == run(script, n + 4, after));
            after
        },
    }
}

/// What a conversion of the language means on a cell.
pub open spec fn cast_meaning(f: Floats, op: CastOp, x: u64) -> u64 {
    match op {
        CastOp::ToFloat => (f.of_int)(signed(x)),
        CastOp::Floor => (f.to_int)((f.floor)(x)),
        CastOp::Round => (f.to_int)((f.round)(x)),
        CastOp::ToFloat32 => (f.narrowed)(x),
        CastOp::FromFloat32 => (f.widened)((x as int % 0x1_0000_0000) as u64),
    }
}

/// The code of a numeric conversion gives what the conversion means on its operand. A
/// float of 32 bits lies in the low half of its cell.
pub proof fn conversion_code_converts(st: St, op: CastOp, a: Atom, script: Seq<Cmd>, m: Machine) -> (after:
    Machine)
    requires
        roomy(st),
        at_once(st, a),
        operand_val(st, a).ty is I64,
        m.args.len() == 0,
        st.cast(op, a) matches Ok((end, _)) ==> extends(script, end.script),
    ensures
        st.cast(op, a) matches Ok((end, v)) && passes(
            script,
            st.script.len() as int,
            m,
            end.script.len() as int,
            after,
        ) && after.value(v) == cast_meaning(m.floats, op, operand(st, m, a)) && v.ty is I64,
{
    lemma_at_once(st, m, a, "conversion operand");
    reveal(further);
    let n = st.script.len() as int;
    let v = operand_val(st, a);
    let x = operand(st, m, a);
    let w = cast_meaning(m.floats, op, x);
    let end = st.cast(op, a)->Ok_0.0;
    assert(forall|i: int| n <= i < end.script.len() ==> script[i] == #[trigger] end.script[i]);
    match op {
        CastOp::ToFloat => {
            assert(script[n] == end.script[n] && script[n + 1] == end.script[n + 1]);
            let m1 = m.set(n, w);
            let after = m1.set(n + 1, w);
            assert(run(script, n, m) == run(script, n + 1, m1));
            assert(run(script, n + 1, m1) == run(script, n + 2, after));
            after
        },
        CastOp::Floor | CastOp::Round => {
            let whole = if op is Floor {
                (m.floats.floor)(x)
            } else {
                (m.floats.round)(x)
            };
            let name = if op is Floor {
                "llvm.floor.f64"
            } else {
                "llvm.round.f64"
            };
            assert(script[n] == end.script[n] && script[n + 1] == end.script[n + 1] && script[n + 2]
                == end.script[n + 2] && script[n + 3] == end.script[n + 3]);
            lemma_names_apart();
            let m1 = m.set(n, x);
            let m2 = Machine { args: m1.args.push(x), ..m1 };
            let m3 = Machine { args: Seq::empty(), ..m2.set(n + 2, whole) };
            let after = m3.set(n + 3, w);
            assert(m.args =~= Seq::<u64>::empty());
            assert(run(script, n, m) == run(script, n + 1, m1));
            assert(run(script, n + 1, m1) == run(script, n + 2, m2));
            assert(script[n + 2]->callee == Callee::Known(name));
            assert(further(script, n + 2, m2) == Some(m3));
            assert(run(script, n + 2, m2) == run(script, n + 3, m3));
            assert(run(script, n + 3, m3) == run(script, n + 4, after));
            after
        },
        CastOp::ToFloat32 => {
            assert(script[n] == end.script[n] && script[n + 1] == end.script[n + 1] && script[n + 2]
                == end.script[n + 2] && script[n + 3] == end.script[n + 3]);
            let m1 = m.set(n, x);
            let m2 = m1.set(n + 1, w);
            let m3 = m2.set(n + 2, w);
            let after = m3.set(n + 3, w);
            assert(run(script, n, m) == run(script, n + 1, m1));
            assert(run(script, n + 1, m1) == run(script, n + 2, m2));
            assert(run(script, n + 2, m2) == run(script, n + 3, m3));
            assert(run(script, n + 3, m3) == run(script, n + 4, after));
            after
        },
        CastOp::FromFloat32 => {
            assert(script[n] == end.script[n] && script[n + 1] == end.script[n + 1] && script[n + 2]
                == end.script[n + 2] && script[n + 3] == end.script[n + 3]);
            let low = low_bits(x, Ty::I32);
            let m1 = m.set(n, low);
            let m2 = m1.set(n + 1, low);
            let m3 = m2.set(n + 2, w);
            let after = m3.set(n + 3, w);
            assert(run(script, n, m) == run(script, n + 1, m1));
            assert(run(script, n + 1, m1) == run(script, n + 2, m2));
            assert(run(script, n + 2, m2) == run(script, n + 3, m3));
            assert(run(script, n + 3, m3) == run(script, n + 4, after));
            after
        },
    }
}

/// The names of the intrinsics on floats are no others, and differ.
pub(crate) proof fn lemma_names_apart()
    ensures
        forall|m: Machine, at: int| #[trigger]
            crate::meaning::calls(m, at, "llvm.floor.f64"@) is None,
        forall|m: Machine, at: int| #[trigger]
            crate::meaning::calls(m, at, "llvm.round.f64"@) is None,
        forall|m: Machine, at: int| #[trigger]
            crate::meaning::calls(m, at, "llvm.sqrt.f64"@) is None,
        forall|m: Machine, at: int| #[trigger]
            crate::meaning::calls(m, at, "llvm.sqrt.f32"@) is None,
        forall|m: Machine, at: int| #[trigger]
            crate::meaning::calls(m, at, "llvm.fma.f64"@) is None,
        forall|m: Machine, at: int| #[trigger]
            crate::meaning::calls(m, at, "llvm.fma.f32"@) is None,
        "llvm.floor.f64"@ != "llvm.trap"@,
        "llvm.round.f64"@ != "llvm.trap"@,
        "llvm.sqrt.f64"@ != "llvm.trap"@,
        "llvm.sqrt.f32"@ != "llvm.trap"@,
        "llvm.fma.f64"@ != "llvm.trap"@,
        "llvm.fma.f32"@ != "llvm.trap"@,
        "llvm.floor.f64"@ != "llvm.round.f64"@,
        "llvm.floor.f64"@ != "llvm.sqrt.f64"@,
        "llvm.floor.f64"@ != "llvm.sqrt.f32"@,
        "llvm.round.f64"@ != "llvm.sqrt.f64"@,
        "llvm.round.f64"@ != "llvm.sqrt.f32"@,
        "llvm.sqrt.f64"@ != "llvm.sqrt.f32"@,
        "llvm.fma.f64"@ != "llvm.fma.f32"@,
{
    reveal_strlit("locus_alloc");
    reveal_strlit("locus_gc_scalar_fields_ptr");
    reveal_strlit("locus_gc_set_scalar");
    reveal_strlit("locus_gc_get_scalar");
    reveal_strlit("locus_gc_alloc");
    reveal_strlit("llvm.sadd.with.overflow.i64");
    reveal_strlit("llvm.ssub.with.overflow.i64");
    reveal_strlit("llvm.smul.with.overflow.i64");
    reveal_strlit("llvm.trap");
    reveal_strlit("llvm.floor.f64");
    reveal_strlit("llvm.round.f64");
    reveal_strlit("llvm.sqrt.f64");
    reveal_strlit("llvm.sqrt.f32");
    reveal_strlit("llvm.fma.f64");
    reveal_strlit("llvm.fma.f32");
    assert("llvm.floor.f64"@[5] == 'f' && "llvm.round.f64"@[5] == 'r' && "llvm.sqrt.f64"@[5] == 's'
        && "llvm.sqrt.f32"@[5] == 's' && "llvm.fma.f64"@[5] == 'f' && "llvm.fma.f32"@[5] == 'f');
    assert("llvm.sqrt.f64"@[11] == '6' && "llvm.sqrt.f32"@[11] == '3');
    assert("llvm.fma.f64"@[10] == '6' && "llvm.fma.f32"@[10] == '3');
}

} // verus!
