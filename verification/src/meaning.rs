//! What commands do when they run, and what is proved of the code that the
//! generator emits for integers and arrays.
use crate::arrays::elem_mask;
use crate::error::CodegenError;
use crate::floats::{further, Floats, Foreign};
use crate::ir::{Atom, BinOp};
use crate::state::{RawArray, St};
use crate::target::{constant, Callee, Cmd, Conv, Id, IntOp, IntPred, Title, Ty, Val};
use vstd::arithmetic::power2::pow2;
use vstd::prelude::*;

verus! {

// ── words ────────────────────────────────────────────────────────────────
/// The number that a word stands for as a signed integer.
pub open spec fn signed(w: u64) -> int {
    if w < 0x8000_0000_0000_0000 {
        w as int
    } else {
        w - 0x1_0000_0000_0000_0000
    }
}

/// The word of a number: its low 64 bits.
pub open spec fn word(n: int) -> u64 {
    (n % 0x1_0000_0000_0000_0000) as u64
}

/// A number that a signed word can hold.
pub open spec fn fits(n: int) -> bool {
    -0x8000_0000_0000_0000 <= n < 0x8000_0000_0000_0000
}

/// A quotient, rounded towards zero.
pub open spec fn quotient(a: int, b: int) -> int {
    if a >= 0 {
        if b >= 0 {
            a / b
        } else {
            -(a / (-b))
        }
    } else {
        if b >= 0 {
            -((-a) / b)
        } else {
            (-a) / (-b)
        }
    }
}

/// The remainder that belongs to the quotient.
pub open spec fn remainder(a: int, b: int) -> int {
    a - quotient(a, b) * b
}

/// A truth value as a word.
pub open spec fn flag(b: bool) -> u64 {
    if b {
        1
    } else {
        0
    }
}

/// What an integer operation computes.
pub open spec fn computes(op: IntOp, a: u64, b: u64) -> u64 {
    match op {
        IntOp::Add => word(a + b),
        IntOp::Sub => word(a - b),
        IntOp::Mul => word(a * b),
        IntOp::SDiv => word(quotient(signed(a), signed(b))),
        IntOp::SRem => word(remainder(signed(a), signed(b))),
        IntOp::UDiv => (a / b) as u64,
        IntOp::URem => a % b,
        IntOp::And => a & b,
        IntOp::Or => a | b,
        IntOp::Xor => a ^ b,
        IntOp::Shl => a << b,
        IntOp::LShr => a >> b,
        IntOp::AShr => word(signed(a) / (pow2(b as nat) as int)),
    }
}

/// What an integer test finds.
pub open spec fn holds(pred: IntPred, a: u64, b: u64) -> bool {
    match pred {
        IntPred::Eq => a == b,
        IntPred::Ne => a != b,
        IntPred::Slt => signed(a) < signed(b),
        IntPred::Sle => signed(a) <= signed(b),
        IntPred::Sgt => signed(a) > signed(b),
        IntPred::Sge => signed(a) >= signed(b),
    }
}

// ── running commands ─────────────────────────────────────────────────────
/// The lanes of a vector.
pub type Lanes = Map<u64, u64>;

/// What is stored while code runs.
pub struct Store {
    /// The cells of memory, by their addresses.
    pub mem: Map<u64, u64>,
    /// The scalar cells of the managed objects, by their handles and positions.
    pub objects: Map<(u64, u64), u64>,
}

/// What a function answers to a call.
pub enum Answer {
    /// A word, and what is stored then.
    Word(u64, Store),
    Trap,
    /// It does not return.
    Never,
}

/// What the function at an address answers to arguments.
pub type Code = spec_fn(u64, Seq<u64>, Store) -> Answer;

/// Where memory of so many bytes is found, or the handle of an object of so many
/// cells.
pub type Room = spec_fn(u64, Store) -> u64;

/// Where the payloads of the managed objects lie, by their handles.
pub type Fields = spec_fn(u64) -> u64;

/// What running code knows.
pub struct Machine {
    /// The values of the commands that ran, by their positions.
    pub regs: Map<u64, u64>,
    /// The parameters of the functions, by their positions.
    pub params: Map<(u64, u32), u64>,
    /// The lanes of the vectors that commands made, by their positions.
    pub lanes: Map<u64, Lanes>,
    /// The lanes of the parameters that are vectors.
    pub wide: Map<(u64, u32), Lanes>,
    /// The checked results, and whether they overflowed.
    pub pairs: Map<u64, (u64, bool)>,
    /// The arguments of the next call.
    pub args: Seq<u64>,
    /// What was last written to memory, by the addresses; how writes to addresses of one
    /// cell meet is not described.
    pub mem: Map<u64, u64>,
    /// The scalar cells of the managed objects, by their handles and positions.
    pub objects: Map<(u64, u64), u64>,
    /// The functions that can be called by their addresses.
    pub code: Code,
    /// Where memory or an object of a size is found.
    pub room: Room,
    /// Where the payloads of the managed objects lie.
    pub fields: Fields,
    /// The arithmetic on floats.
    pub floats: Floats,
    /// The foreign functions.
    pub foreign: Foreign,
    /// The block that the last jump left.
    pub came: u64,
    /// The values that the commands had when that block was left.
    pub held: Map<u64, u64>,
}

/// How running code ends.
pub enum Outcome {
    Done(Machine),
    Trap,
    /// It returned a word; this is stored then.
    Returned(u64, Store),
    /// It went back to a position that it had passed.
    Back(int, Machine),
    /// It came to a command that is not described here, or went back too often.
    Beyond,
}

impl Machine {
    /// The value of an operand. The address of a function is its position.
    pub open spec fn value(self, v: Val) -> u64 {
        match v.id {
            Id::Const(n) => n,
            Id::Reg(i) => self.regs[i],
            Id::Param { func, index } => self.params[(func, index)],
            Id::Func(func) => func,
            _ => 0,
        }
    }

    /// The lanes of a vector operand.
    pub open spec fn vector(self, v: Val) -> Lanes {
        match v.id {
            Id::Reg(i) => self.lanes[i],
            Id::Param { func, index } => self.wide[(func, index)],
            _ => Map::empty(),
        }
    }

    /// The command at a position made this vector.
    pub open spec fn made(self, at: int, lanes: Lanes) -> Machine {
        Machine { lanes: self.lanes.insert(at as u64, lanes), ..self }
    }

    /// The command at a position has this value.
    pub open spec fn set(self, at: int, w: u64) -> Machine {
        Machine { regs: self.regs.insert(at as u64, w), ..self }
    }

    /// What is stored.
    pub open spec fn store(self) -> Store {
        Store { mem: self.mem, objects: self.objects }
    }

    /// The call at a position returned a word.
    pub open spec fn back(self, at: int, w: u64, s: Store) -> Machine {
        Machine { mem: s.mem, objects: s.objects, args: Seq::empty(), ..self.set(at, w) }
    }

    /// The command at a position found a slot of one cell; what the slot holds before it
    /// is written is not said.
    pub open spec fn found(self, at: int) -> Machine {
        let slot = (self.room)(8, self.store());
        Machine { mem: self.mem.insert(slot, arbitrary()), ..self.set(at, slot) }
    }

    /// The machine once it left a block.
    pub open spec fn left(self, block: u64) -> Machine {
        Machine { came: block, held: self.regs, ..self }
    }

    /// The value that an operand had when the last block was left. The phis of a
    /// block take their values at once.
    pub open spec fn past(self, v: Val) -> u64 {
        match v.id {
            Id::Reg(i) => self.held[i],
            _ => self.value(v),
        }
    }

    /// The checked result of an intrinsic on the two arguments given.
    pub open spec fn checked(self, at: int, exact: int) -> Machine {
        Machine {
            pairs: self.pairs.insert(at as u64, (word(exact), !fits(exact))),
            args: Seq::empty(),
            ..self
        }
    }
}

/// A value of fewer bits than a cell.
pub open spec fn narrow(ty: Ty) -> bool {
    ty is I8 || ty is I16 || ty is I32
}

/// The number of words that a value of so many bits has.
pub open spec fn words_of_width(ty: Ty) -> int {
    match ty {
        Ty::I8 => 0x100,
        Ty::I16 => 0x1_0000,
        Ty::I32 => 0x1_0000_0000,
        _ => 0x1_0000_0000_0000_0000,
    }
}

/// The low bits of a cell that such a value takes.
pub open spec fn low_bits(cell: u64, ty: Ty) -> u64 {
    (cell as int % words_of_width(ty)) as u64
}

/// Where code goes on at the end of a block, from position `i` on.
pub open spec fn seek(script: Seq<Cmd>, block: u64, i: int) -> int
    decreases script.len() - i,
{
    if i >= script.len() || script[i] == (Cmd::At { block }) {
        i
    } else {
        seek(script, block, i + 1)
    }
}

/// The block whose commands are at a position.
pub open spec fn opened(script: Seq<Cmd>, i: int) -> u64
    decreases i,
{
    if i <= 0 {
        0
    } else {
        match script[i - 1] {
            Cmd::At { block } => block,
            _ => opened(script, i - 1),
        }
    }
}

/// What a phi takes where its block was entered from another, from position `i` on.
pub open spec fn edge(script: Seq<Cmd>, phi: int, from: u64, i: int) -> Option<Val>
    decreases script.len() - i,
{
    if i >= script.len() {
        None
    } else {
        match script[i] {
            Cmd::Incoming { phi: p, val, from: f } => if p == phi && f == from {
                Some(val)
            } else {
                edge(script, phi, from, i + 1)
            },
            _ => edge(script, phi, from, i + 1),
        }
    }
}

proof fn lemma_seek(script: Seq<Cmd>, block: u64, i: int)
    ensures
        seek(script, block, i) >= i,
        i <= script.len() ==> seek(script, block, i) <= script.len(),
    decreases script.len() - i,
{
    if i < script.len() && script[i] != (Cmd::At { block }) {
        lemma_seek(script, block, i + 1);
    }
}

/// What a call does that is described here.
pub open spec fn calls(m: Machine, at: int, name: Seq<char>) -> Option<Machine> {
    if m.args.len() == 1 && name == "locus_alloc"@ {
        Some(m.back(at, (m.room)(m.args[0], m.store()), m.store()))
    } else if m.args.len() == 1 && name == "locus_gc_scalar_fields_ptr"@ {
        Some(m.back(at, (m.fields)(m.args[0]), m.store()))
    } else if m.args.len() == 3 && name == "locus_gc_set_scalar"@ {
        Some(
            Machine {
                objects: m.objects.insert((m.args[0], m.args[1]), m.args[2]),
                args: Seq::empty(),
                ..m
            },
        )
    } else if m.args.len() != 2 {
        None
    } else if name == "llvm.sadd.with.overflow.i64"@ {
        Some(m.checked(at, signed(m.args[0]) + signed(m.args[1])))
    } else if name == "llvm.ssub.with.overflow.i64"@ {
        Some(m.checked(at, signed(m.args[0]) - signed(m.args[1])))
    } else if name == "llvm.smul.with.overflow.i64"@ {
        Some(m.checked(at, signed(m.args[0]) * signed(m.args[1])))
    } else if name == "locus_gc_get_scalar"@ {
        Some(m.back(at, m.objects[(m.args[0], m.args[1])], m.store()))
    } else if name == "locus_gc_alloc"@ {
        Some(m.back(at, (m.room)(word(m.args[0] + m.args[1]), m.store()), m.store()))
    } else {
        None
    }
}

/// How the commands from a position on run. A jump goes on at the next point where
/// the block it names is entered, or back to the first; what a block does not jump
/// over runs on into what follows it. A function that is added in between is passed
/// over: the block goes on behind it.
pub open spec fn run(script: Seq<Cmd>, pc: int, m: Machine) -> Outcome
    decreases script.len() - pc,
    via run_goes_on
{
    if pc < 0 || pc >= script.len() {
        Outcome::Done(m)
    } else {
        match script[pc] {
            Cmd::Block { .. } | Cmd::At { .. } | Cmd::Param { .. } => run(script, pc + 1, m),
            Cmd::Int { op, a, b, .. } => run(
                script,
                pc + 1,
                m.set(pc, computes(op, m.value(a), m.value(b))),
            ),
            Cmd::IntTest { pred, a, b, .. } => run(
                script,
                pc + 1,
                m.set(pc, flag(holds(pred, m.value(a), m.value(b)))),
            ),
            Cmd::Convert { op: Conv::Zext, a, .. } => if a.ty is I1 || narrow(a.ty) {
                run(script, pc + 1, m.set(pc, m.value(a)))
            } else {
                Outcome::Beyond
            },
            Cmd::Convert { op: Conv::Trunc, a, ty: Ty::I8, .. } => run(
                script,
                pc + 1,
                m.set(pc, low_bits(m.value(a), Ty::I8)),
            ),
            Cmd::Convert { op: Conv::Trunc, a, ty: Ty::I16, .. } => run(
                script,
                pc + 1,
                m.set(pc, low_bits(m.value(a), Ty::I16)),
            ),
            Cmd::Convert { op: Conv::Trunc, a, ty: Ty::I32, .. } => run(
                script,
                pc + 1,
                m.set(pc, low_bits(m.value(a), Ty::I32)),
            ),
            Cmd::Convert { op: Conv::Trunc, a, ty: Ty::I1, .. } => run(
                script,
                pc + 1,
                m.set(pc, m.value(a) % 2),
            ),
            Cmd::Convert { op: Conv::PtrToInt, a, .. } => run(script, pc + 1, m.set(pc, m.value(a))),
            Cmd::Convert { op: Conv::IntToPtr, a, .. } => run(script, pc + 1, m.set(pc, m.value(a))),
            Cmd::Extract { vec, lane, .. } => run(
                script,
                pc + 1,
                m.set(pc, m.vector(vec)[lane]),
            ),
            Cmd::Insert { vec, elem, lane, .. } => run(
                script,
                pc + 1,
                m.made(pc, m.vector(vec).insert(lane, m.value(elem))),
            ),
            Cmd::Gep { elem: Ty::I64, base, index, .. } => run(
                script,
                pc + 1,
                m.set(pc, word(m.value(base) + m.value(index) * 8)),
            ),
            Cmd::Gep { elem: Ty::I8, base, index, .. } => run(
                script,
                pc + 1,
                m.set(pc, word(m.value(base) + m.value(index))),
            ),
            Cmd::Load { ty: Ty::I64, ptr, .. } => run(
                script,
                pc + 1,
                m.set(pc, m.mem[m.value(ptr)]),
            ),
            Cmd::Load { ty, ptr, .. } => if narrow(ty) {
                run(script, pc + 1, m.set(pc, low_bits(m.mem[m.value(ptr)], ty)))
            } else {
                match further(script, pc, m) {
                    Some(after) => run(script, pc + 1, after),
                    None => Outcome::Beyond,
                }
            },
            Cmd::Store { ptr, val, .. } => run(
                script,
                pc + 1,
                Machine { mem: m.mem.insert(m.value(ptr), m.value(val)), ..m },
            ),
            Cmd::EntryAlloca { .. } => run(script, pc + 1, m.found(pc)),
            Cmd::Alloca { ty: Ty::I64, .. } => run(script, pc + 1, m.found(pc)),
            Cmd::Arg { val } => run(
                script,
                pc + 1,
                Machine { args: m.args.push(m.value(val)), ..m },
            ),
            Cmd::Call { callee: Callee::Known(name), .. } => if name@ == "llvm.trap"@ {
                Outcome::Trap
            } else {
                match calls(m, pc, name@) {
                    Some(m) => run(script, pc + 1, m),
                    None => match further(script, pc, m) {
                        Some(after) => run(script, pc + 1, after),
                        None => Outcome::Beyond,
                    },
                }
            },
            Cmd::CallPtr { ptr, .. } => match (m.code)(m.value(ptr), m.args, m.store()) {
                Answer::Word(w, s) => run(script, pc + 1, m.back(pc, w, s)),
                Answer::Trap => Outcome::Trap,
                Answer::Never => Outcome::Beyond,
            },
            Cmd::Part { pair, index, .. } => match pair.id {
                Id::Reg(i) => run(
                    script,
                    pc + 1,
                    m.set(
                        pc,
                        if index == 0 {
                            m.pairs[i].0
                        } else {
                            flag(m.pairs[i].1)
                        },
                    ),
                ),
                _ => Outcome::Beyond,
            },
            Cmd::CondBr { cond, yes, no } => {
                let to = if m.value(cond) != 0 {
                    yes
                } else {
                    no
                };
                let at = seek(script, to, pc + 1);
                if at < script.len() {
                    run(script, at, m.left(opened(script, pc)))
                } else {
                    Outcome::Back(seek(script, to, 0), m.left(opened(script, pc)))
                }
            },
            Cmd::Br { to } => {
                let at = seek(script, to, pc + 1);
                if at < script.len() {
                    run(script, at, m.left(opened(script, pc)))
                } else {
                    Outcome::Back(seek(script, to, 0), m.left(opened(script, pc)))
                }
            },
            Cmd::Func { .. } => run(script, seek(script, opened(script, pc), pc + 1), m),
            Cmd::Ret { val } => Outcome::Returned(m.value(val), m.store()),
            Cmd::Phi { .. } => match edge(script, pc, m.came, pc + 1) {
                Some(v) => run(script, pc + 1, m.set(pc, m.past(v))),
                None => Outcome::Beyond,
            },
            Cmd::Incoming { .. } => run(script, pc + 1, m),
            Cmd::Unreachable => Outcome::Trap,
            _ => match further(script, pc, m) {
                Some(after) => run(script, pc + 1, after),
                None => Outcome::Beyond,
            },
        }
    }
}

#[via_fn]
proof fn run_goes_on(script: Seq<Cmd>, pc: int, m: Machine) {
    if 0 <= pc < script.len() {
        if let Cmd::CondBr { cond, yes, no } = script[pc] {
            lemma_seek(
                script,
                if m.value(cond) != 0 {
                    yes
                } else {
                    no
                },
                pc + 1,
            );
        } else if let Cmd::Br { to } = script[pc] {
            lemma_seek(script, to, pc + 1);
        } else if script[pc] is Func {
            lemma_seek(script, opened(script, pc), pc + 1);
        }
    }
}

/// How the commands from a position on run if they go back at most `turns` times.
pub open spec fn runs(script: Seq<Cmd>, pc: int, m: Machine, turns: nat) -> Outcome
    decreases turns,
{
    match run(script, pc, m) {
        Outcome::Back(at, after) => if turns == 0 {
            Outcome::Beyond
        } else {
            runs(script, at, after, (turns - 1) as nat)
        },
        other => other,
    }
}

/// A script that begins with another.
pub open spec fn extends(script: Seq<Cmd>, start: Seq<Cmd>) -> bool {
    start.len() <= script.len() && forall|i: int| 0 <= i < start.len() ==> script[i] == #[trigger] start[i]
}

/// The operand has its value before the next command runs.
pub open spec fn ready(st: St, v: Val) -> bool {
    match v.id {
        Id::Const(_) => true,
        Id::Reg(i) => i < st.script.len(),
        Id::Param { .. } => true,
        _ => false,
    }
}

/// The positions of the next commands can be counted.
pub open spec fn roomy(st: St) -> bool {
    st.script.len() + 64 <= u64::MAX
}

// ── traps ────────────────────────────────────────────────────────────────
/// Code behind a trap runs just when its condition does not hold.
pub proof fn a_trap_guards_what_follows(
    st: St,
    cond: Val,
    trap: &'static str,
    cont: &'static str,
    abort: &'static str,
    script: Seq<Cmd>,
    m: Machine,
)
    requires
        st.script.len() + 8 <= u64::MAX,
        extends(script, st.trap_if(cond, trap, cont, abort).script),
    ensures
        run(script, st.script.len() as int, m) == (if m.value(cond) != 0 {
            Outcome::Trap
        } else {
            run(
                script,
                st.trap_if(cond, trap, cont, abort).script.len() as int,
                m.left(opened(script, st.script.len() as int)),
            )
        }),
{
    let n = st.script.len() as int;
    let at = m.left(opened(script, n));
    let done = st.trap_if(cond, trap, cont, abort).script;
    let trap_bb = n as u64;
    let cont_bb = (n + 1) as u64;
    assert(done.len() == n + 7);
    assert(done[n] is Block);
    assert(done[n + 1] is Block);
    assert(done[n + 2] == (Cmd::CondBr { cond, yes: trap_bb, no: cont_bb }));
    assert(done[n + 3] == (Cmd::At { block: trap_bb }));
    assert(done[n + 4] == (Cmd::Call {
        callee: Callee::Known("llvm.trap"),
        ret: Ty::Void,
        label: abort,
    }));
    assert(done[n + 5] is Unreachable);
    assert(done[n + 6] == (Cmd::At { block: cont_bb }));
    assert(forall|i: int| n <= i < n + 7 ==> script[i] == #[trigger] done[i]);
    assert(script[n] == done[n] && script[n + 1] == done[n + 1] && script[n + 2] == done[n + 2]
        && script[n + 3] == done[n + 3] && script[n + 4] == done[n + 4] && script[n + 5] == done[n
        + 5] && script[n + 6] == done[n + 6]);
    assert(run(script, n, m) == run(script, n + 1, m));
    assert(run(script, n + 1, m) == run(script, n + 2, m));
    assert(opened(script, n + 2) == opened(script, n)) by {
        reveal_with_fuel(opened, 3);
    }
    if m.value(cond) != 0 {
        assert(seek(script, trap_bb, n + 3) == n + 3);
        assert(run(script, n + 2, m) == run(script, n + 3, at));
        assert(run(script, n + 3, at) == run(script, n + 4, at));
        assert(run(script, n + 4, at) == Outcome::Trap);
    } else {
        assert(seek(script, cont_bb, n + 6) == n + 6);
        assert(seek(script, cont_bb, n + 5) == n + 6);
        assert(seek(script, cont_bb, n + 4) == n + 6);
        assert(seek(script, cont_bb, n + 3) == n + 6);
        assert(run(script, n + 2, m) == run(script, n + 6, at));
        assert(run(script, n + 6, at) == run(script, n + 7, at));
    }
}

// ── integers ─────────────────────────────────────────────────────────────
/// What an integer operation of the language gives: none where it traps.
pub open spec fn gives(op: BinOp, a: u64, b: u64) -> Option<u64> {
    let x = signed(a);
    let y = signed(b);
    let no_quotient = y == 0 || (x == -0x8000_0000_0000_0000 && y == -1);
    match op {
        BinOp::Add | BinOp::AddWrap => Some(word(x + y)),
        BinOp::Sub | BinOp::SubWrap => Some(word(x - y)),
        BinOp::Mul | BinOp::MulWrap => Some(word(x * y)),
        BinOp::Div => if no_quotient {
            None
        } else {
            Some(word(quotient(x, y)))
        },
        BinOp::Mod => if no_quotient {
            None
        } else {
            Some(word(remainder(x, y)))
        },
        BinOp::AddChecked => if fits(x + y) {
            Some(word(x + y))
        } else {
            None
        },
        BinOp::SubChecked => if fits(x - y) {
            Some(word(x - y))
        } else {
            None
        },
        BinOp::MulChecked => if fits(x * y) {
            Some(word(x * y))
        } else {
            None
        },
        BinOp::And => Some(a & b),
        BinOp::Or => Some(a | b),
        BinOp::Xor => Some(a ^ b),
        BinOp::Shl => Some(a << b),
        BinOp::Shr => Some(word(x / (pow2(b as nat) as int))),
        BinOp::Eq => Some(flag(x == y)),
        BinOp::Ne => Some(flag(x != y)),
        BinOp::Lt => Some(flag(x < y)),
        BinOp::Le => Some(flag(x <= y)),
        BinOp::Gt => Some(flag(x > y)),
        BinOp::Ge => Some(flag(x >= y)),
    }
}

/// A machine that kept what was there before position `n`.
pub open spec fn keeps(before: Machine, after: Machine, n: int) -> bool {
    &&& after.params == before.params
    &&& after.mem == before.mem
    &&& after.objects == before.objects
    &&& after.code == before.code
    &&& after.room == before.room
    &&& after.args == before.args
    &&& forall|i: u64| i < n ==> after.regs[i] == #[trigger] before.regs[i]
}

/// The code behind `n` goes on at `end` with this value for `v`.
pub open spec fn yields(script: Seq<Cmd>, n: int, m: Machine, end: int, v: Val, w: u64) -> bool {
    exists|after: Machine| #[trigger]
        keeps(m, after, n) && after.value(v) == w && run(script, n, m) == run(script, end, after)
}

/// Words and signed numbers agree modulo the word size.
proof fn lemma_word_arith(a: u64, b: u64)
    ensures
        word(a + b) == word(signed(a) + signed(b)),
        word(a - b) == word(signed(a) - signed(b)),
        word(a * b) == word(signed(a) * signed(b)),
{
    let k = 0x1_0000_0000_0000_0000int;
    let p: int = if a < 0x8000_0000_0000_0000 {
        0
    } else {
        1
    };
    let q: int = if b < 0x8000_0000_0000_0000 {
        0
    } else {
        1
    };
    assert(signed(a) == a - p * k);
    assert(signed(b) == b - q * k);
    vstd::arithmetic::div_mod::lemma_mod_multiples_vanish(-(p + q), a + b, k);
    vstd::arithmetic::div_mod::lemma_mod_multiples_vanish(q - p, a - b, k);
    assert(k * (-(p + q)) + (a + b) == signed(a) + signed(b)) by (nonlinear_arith)
        requires
            signed(a) == a - p * k,
            signed(b) == b - q * k,
    ;
    assert(k * (q - p) + (a - b) == signed(a) - signed(b)) by (nonlinear_arith)
        requires
            signed(a) == a - p * k,
            signed(b) == b - q * k,
    ;
    let r = -(q * a) - p * b + p * q * k;
    vstd::arithmetic::div_mod::lemma_mod_multiples_vanish(r, a * b, k);
    assert(k * r + a * b == signed(a) * signed(b)) by (nonlinear_arith)
        requires
            signed(a) == a - p * k,
            signed(b) == b - q * k,
            r == -(q * a) - p * b + p * q * k,
    ;
}

proof fn lemma_plain(st: St, op: IntOp, a: Val, b: Val, label: &'static str, script: Seq<Cmd>, m: Machine)
    requires
        roomy(st),
        extends(script, st.iop(op, a, b, label).0.script),
    ensures
        yields(
            script,
            st.script.len() as int,
            m,
            (st.script.len() + 1) as int,
            st.iop(op, a, b, label).1,
            computes(op, m.value(a), m.value(b)),
        ),
{
    let n = st.script.len() as int;
    let (end, v) = st.iop(op, a, b, label);
    assert(script[n] == end.script[n]);
    let after = m.set(n, computes(op, m.value(a), m.value(b)));
    assert(run(script, n, m) == run(script, n + 1, after));
    assert(keeps(m, after, n));
}

proof fn lemma_test(
    st: St,
    pred: IntPred,
    a: Val,
    b: Val,
    label: &'static str,
    wide: &'static str,
    script: Seq<Cmd>,
    m: Machine,
)
    requires
        roomy(st),
        extends(script, st.compare(pred, a, b, label, wide).0.script),
    ensures
        yields(
            script,
            st.script.len() as int,
            m,
            (st.script.len() + 2) as int,
            st.compare(pred, a, b, label, wide).1,
            flag(holds(pred, m.value(a), m.value(b))),
        ),
{
    let n = st.script.len() as int;
    let (end, v) = st.compare(pred, a, b, label, wide);
    assert(script[n] == end.script[n] && script[n + 1] == end.script[n + 1]);
    let w = flag(holds(pred, m.value(a), m.value(b)));
    let mid = m.set(n, w);
    let after = mid.set(n + 1, w);
    assert(run(script, n, m) == run(script, n + 1, mid));
    assert(run(script, n + 1, mid) == run(script, n + 2, after));
    assert(keeps(m, after, n));
}

/// The five tests in front of a division.
proof fn lemma_no_quotient(a: u64, b: u64)
    ensures
        (a == 0x8000_0000_0000_0000u64) == (signed(a) == -0x8000_0000_0000_0000),
        (b == u64::MAX) == (signed(b) == -1),
        (b == 0) == (signed(b) == 0),
        forall|p: bool, q: bool, r: bool|
            (#[trigger] (flag(p) | (flag(q) & flag(r))) != 0) == (p || (q && r)),
{
    assert forall|p: bool, q: bool, r: bool|
        (#[trigger] (flag(p) | (flag(q) & flag(r))) != 0) == (p || (q && r)) by {
        let x = flag(p);
        let y = flag(q);
        let z = flag(r);
        assert(x <= 1 && y <= 1 && z <= 1 ==> ((x | (y & z)) != 0) == (x != 0 || (y != 0 && z
            != 0))) by (bit_vector);
    }
}

proof fn lemma_divides(st: St, rem: bool, a: Val, b: Val, script: Seq<Cmd>, m: Machine)
    requires
        roomy(st),
        ready(st, a),
        ready(st, b),
        extends(
            script,
            if rem {
                st.int_rem(a, b).0.script
            } else {
                st.int_div(a, b).0.script
            },
        ),
    ensures
        ({
            let n = st.script.len() as int;
            let (end, v) = if rem {
                st.int_rem(a, b)
            } else {
                st.int_div(a, b)
            };
            let op = if rem {
                BinOp::Mod
            } else {
                BinOp::Div
            };
            match gives(op, m.value(a), m.value(b)) {
                None => run(script, n, m) is Trap,
                Some(w) => yields(script, n, m, end.script.len() as int, v, w),
            }
        }),
{
    let n = st.script.len() as int;
    let (end, v) = if rem {
        st.int_rem(a, b)
    } else {
        st.int_div(a, b)
    };
    let x = m.value(a);
    let y = m.value(b);
    lemma_no_quotient(x, y);
    let zero = flag(y == 0);
    let least = flag(x == 0x8000_0000_0000_0000u64);
    let minus = flag(y == u64::MAX);
    let over = least & minus;
    let bad = zero | over;
    let m1 = m.set(n, zero);
    let m2 = m1.set(n + 1, least);
    let m3 = m2.set(n + 2, minus);
    let m4 = m3.set(n + 3, over);
    let m5 = m4.set(n + 4, bad);
    assert(end.script.len() == n + 13);
    assert(script[n] == end.script[n] && script[n + 1] == end.script[n + 1] && script[n + 2]
        == end.script[n + 2] && script[n + 3] == end.script[n + 3] && script[n + 4]
        == end.script[n + 4]);
    assert(m1.value(a) == x && m1.value(b) == y);
    assert(m2.value(a) == x && m2.value(b) == y);
    assert(m5.value(a) == x && m5.value(b) == y);
    assert(run(script, n, m) == run(script, n + 1, m1));
    assert(run(script, n + 1, m1) == run(script, n + 2, m2));
    assert(run(script, n + 2, m2) == run(script, n + 3, m3));
    assert(run(script, n + 3, m3) == run(script, n + 4, m4));
    assert(run(script, n + 4, m4) == run(script, n + 5, m5));
    let st5 = St { script: end.script.take(n + 5), cx: st.cx };
    let cond = Val { id: Id::Reg((n + 4) as u64), ty: Ty::I1 };
    let names = if rem {
        ("rem.trap", "rem.cont", "rem.abort")
    } else {
        ("div.trap", "div.cont", "div.abort")
    };
    let guarded = st5.trap_if(cond, names.0, names.1, names.2);
    assert(guarded.script =~= end.script.take(n + 12));
    assert(extends(script, guarded.script)) by {
        assert forall|i: int| 0 <= i < guarded.script.len() implies script[i]
            == #[trigger] guarded.script[i] by {
            assert(guarded.script[i] == end.script[i]);
        }
    }
    a_trap_guards_what_follows(st5, cond, names.0, names.1, names.2, script, m5);
    assert(m5.value(cond) == bad);
    if bad == 0 {
        assert(script[n + 12] == end.script[n + 12]);
        let op = if rem {
            IntOp::SRem
        } else {
            IntOp::SDiv
        };
        let m6 = m5.left(opened(script, n + 5));
        let after = m6.set(n + 12, computes(op, x, y));
        assert(m6.value(a) == x && m6.value(b) == y);
        assert(run(script, n + 12, m6) == run(script, n + 13, after));
        assert(keeps(m, after, n));
    }
}

proof fn lemma_checked(st: St, intrinsic: &'static str, op: BinOp, a: Val, b: Val, script: Seq<Cmd>, m: Machine)
    requires
        roomy(st),
        ready(st, a),
        ready(st, b),
        m.args.len() == 0,
        (op is AddChecked && intrinsic@ == "llvm.sadd.with.overflow.i64"@) || (op is SubChecked
            && intrinsic@ == "llvm.ssub.with.overflow.i64"@) || (op is MulChecked && intrinsic@
            == "llvm.smul.with.overflow.i64"@),
        extends(script, st.checked_int(intrinsic, a, b).0.script),
    ensures
        ({
            let n = st.script.len() as int;
            let (end, v) = st.checked_int(intrinsic, a, b);
            match gives(op, m.value(a), m.value(b)) {
                None => run(script, n, m) is Trap,
                Some(w) => yields(script, n, m, end.script.len() as int, v, w),
            }
        }),
{
    let n = st.script.len() as int;
    let (end, v) = st.checked_int(intrinsic, a, b);
    let x = m.value(a);
    let y = m.value(b);
    let exact = if op is AddChecked {
        signed(x) + signed(y)
    } else if op is SubChecked {
        signed(x) - signed(y)
    } else {
        signed(x) * signed(y)
    };
    reveal_strlit("llvm.sadd.with.overflow.i64");
    reveal_strlit("llvm.ssub.with.overflow.i64");
    reveal_strlit("llvm.smul.with.overflow.i64");
    reveal_strlit("llvm.trap");
    assert("llvm.sadd.with.overflow.i64"@[6] == 'a');
    assert("llvm.ssub.with.overflow.i64"@[6] == 's');
    assert("llvm.smul.with.overflow.i64"@[6] == 'm');
    assert(end.script.len() == n + 12);
    assert(script[n] == end.script[n] && script[n + 1] == end.script[n + 1] && script[n + 2]
        == end.script[n + 2] && script[n + 3] == end.script[n + 3] && script[n + 4]
        == end.script[n + 4]);
    let m1 = Machine { args: m.args.push(x), ..m };
    assert(m1.value(b) == y);
    let m2 = Machine { args: m1.args.push(y), ..m1 };
    assert(m2.args[0] == x && m2.args[1] == y);
    let m3 = m2.checked(n + 2, exact);
    let m4 = m3.set(n + 3, word(exact));
    let m5 = m4.set(n + 4, flag(!fits(exact)));
    assert(run(script, n, m) == run(script, n + 1, m1));
    assert(run(script, n + 1, m1) == run(script, n + 2, m2));
    assert(calls(m2, n + 2, intrinsic@) == Some(m3));
    assert(run(script, n + 2, m2) == run(script, n + 3, m3));
    assert(run(script, n + 3, m3) == run(script, n + 4, m4));
    assert(run(script, n + 4, m4) == run(script, n + 5, m5));
    let st5 = St { script: end.script.take(n + 5), cx: st.cx };
    let cond = Val { id: Id::Reg((n + 4) as u64), ty: Ty::I1 };
    let guarded = st5.trap_if(cond, "overflow.trap", "overflow.cont", "overflow.abort");
    assert(guarded.script =~= end.script);
    a_trap_guards_what_follows(
        st5,
        cond,
        "overflow.trap",
        "overflow.cont",
        "overflow.abort",
        script,
        m5,
    );
    if fits(exact) {
        let after = m5.left(opened(script, n + 5));
        assert(after.args =~= m.args);
        assert(keeps(m, after, n));
        assert(after.value(v) == word(exact));
    }
}

/// The code of an integer operation computes what the operation gives, and traps
/// just where it gives nothing: division by zero, the least integer by minus one,
/// and checked arithmetic that overflows. Shifts are meant by less than the width
/// of a word.
pub proof fn integer_code_computes_the_operation(
    st: St,
    op: BinOp,
    a: Val,
    b: Val,
    script: Seq<Cmd>,
    m: Machine,
)
    requires
        roomy(st),
        ready(st, a),
        ready(st, b),
        m.args.len() == 0,
        op is Shl || op is Shr ==> m.value(b) < 64,
        extends(script, st.int_bin(op, a, b).0.script),
    ensures
        match gives(op, m.value(a), m.value(b)) {
            None => run(script, st.script.len() as int, m) is Trap,
            Some(w) => yields(
                script,
                st.script.len() as int,
                m,
                st.int_bin(op, a, b).0.script.len() as int,
                st.int_bin(op, a, b).1,
                w,
            ),
        },
{
    lemma_word_arith(m.value(a), m.value(b));
    match op {
        BinOp::Add | BinOp::AddWrap => lemma_plain(st, IntOp::Add, a, b, "add", script, m),
        BinOp::Sub | BinOp::SubWrap => lemma_plain(st, IntOp::Sub, a, b, "sub", script, m),
        BinOp::Mul | BinOp::MulWrap => lemma_plain(st, IntOp::Mul, a, b, "mul", script, m),
        BinOp::Div => lemma_divides(st, false, a, b, script, m),
        BinOp::Mod => lemma_divides(st, true, a, b, script, m),
        BinOp::AddChecked => lemma_checked(
            st,
            "llvm.sadd.with.overflow.i64",
            op,
            a,
            b,
            script,
            m,
        ),
        BinOp::SubChecked => lemma_checked(
            st,
            "llvm.ssub.with.overflow.i64",
            op,
            a,
            b,
            script,
            m,
        ),
        BinOp::MulChecked => lemma_checked(
            st,
            "llvm.smul.with.overflow.i64",
            op,
            a,
            b,
            script,
            m,
        ),
        BinOp::And => lemma_plain(st, IntOp::And, a, b, "and", script, m),
        BinOp::Or => lemma_plain(st, IntOp::Or, a, b, "or", script, m),
        BinOp::Xor => lemma_plain(st, IntOp::Xor, a, b, "xor", script, m),
        BinOp::Shl => lemma_plain(st, IntOp::Shl, a, b, "shl", script, m),
        BinOp::Shr => lemma_plain(st, IntOp::AShr, a, b, "shr", script, m),
        BinOp::Eq => lemma_test(st, IntPred::Eq, a, b, "eq", "eqw", script, m),
        BinOp::Ne => lemma_test(st, IntPred::Ne, a, b, "ne", "new", script, m),
        BinOp::Lt => lemma_test(st, IntPred::Slt, a, b, "lt", "ltw", script, m),
        BinOp::Le => lemma_test(st, IntPred::Sle, a, b, "le", "lew", script, m),
        BinOp::Gt => lemma_test(st, IntPred::Sgt, a, b, "gt", "gtw", script, m),
        BinOp::Ge => lemma_test(st, IntPred::Sge, a, b, "ge", "gew", script, m),
    }
}

// ── tagged words ─────────────────────────────────────────────────────────
/// A number that fits beside a tag of two bits.
pub open spec fn taggable(n: int) -> bool {
    -0x2000_0000_0000_0000 <= n < 0x2000_0000_0000_0000
}

/// The code that tags a cell gives the cell times four where it fits, from which
/// untagging gives the cell again; it traps where it does not fit.
pub proof fn tagging_is_undone_by_untagging(st: St, v: Val, script: Seq<Cmd>, m: Machine)
    requires
        roomy(st),
        ready(st, v),
        extends(script, st.tag_val(v).0.script),
    ensures
        if taggable(signed(m.value(v))) {
            &&& yields(
                script,
                st.script.len() as int,
                m,
                st.tag_val(v).0.script.len() as int,
                st.tag_val(v).1,
                word(signed(m.value(v)) * 4),
            )
            &&& computes(IntOp::AShr, word(signed(m.value(v)) * 4), 2) == m.value(v)
        } else {
            run(script, st.script.len() as int, m) is Trap
        },
{
    let n = st.script.len() as int;
    let (end, up) = st.tag_val(v);
    let x = m.value(v);
    let shifted = x << 2u64;
    vstd::arithmetic::power2::lemma2_to64();
    assert(pow2(2) == 4);
    assert(shifted == (x * 4) % 0x1_0000_0000_0000_0000) by (bit_vector)
        requires
            shifted == x << 2u64,
    ;
    assert(shifted == word(signed(x) * 4)) by {
        if x >= 0x8000_0000_0000_0000 {
            vstd::arithmetic::div_mod::lemma_mod_multiples_vanish(
                -4,
                x * 4,
                0x1_0000_0000_0000_0000,
            );
        }
    }
    let back = word(signed(shifted) / 4);
    assert((back == x) == taggable(signed(x)));
    let over = flag(back != x);
    let m1 = m.set(n, shifted);
    let m2 = m1.set(n + 1, back);
    let m3 = m2.set(n + 2, over);
    assert(end.script.len() == n + 10);
    assert(script[n] == end.script[n] && script[n + 1] == end.script[n + 1] && script[n + 2]
        == end.script[n + 2]);
    assert(m1.value(v) == x && m2.value(v) == x);
    assert(run(script, n, m) == run(script, n + 1, m1));
    assert(run(script, n + 1, m1) == run(script, n + 2, m2));
    assert(run(script, n + 2, m2) == run(script, n + 3, m3));
    let st3 = St { script: end.script.take(n + 3), cx: st.cx };
    let cond = Val { id: Id::Reg((n + 2) as u64), ty: Ty::I1 };
    assert(st3.trap_if(cond, "tag.i62.trap", "tag.i62.cont", "tag.i62.abort").script
        =~= end.script);
    a_trap_guards_what_follows(
        st3,
        cond,
        "tag.i62.trap",
        "tag.i62.cont",
        "tag.i62.abort",
        script,
        m3,
    );
    if back == x {
        let after = m3.left(opened(script, n + 3));
        assert(keeps(m, after, n));
        assert(after.value(up) == shifted);
    }
}

// ── packed arrays ────────────────────────────────────────────────────────
/// A width that divides a cell.
pub open spec fn packs(stride: u64) -> bool {
    stride == 1 || stride == 2 || stride == 4 || stride == 8
}

/// The address of the cell that holds an element of a borrowed array: the cells
/// begin behind the one with the length.
pub open spec fn elem_addr(base: u64, i: int, stride: u64) -> u64 {
    (base + 8 * (1 + i * stride / 8)) as u64
}

/// How far up its cell an element stands.
pub open spec fn elem_shift(i: int, stride: u64) -> u64 {
    (i * stride % 8 * 8) as u64
}

/// An element of a borrowed array.
pub open spec fn elem_read(mem: Map<u64, u64>, base: u64, i: int, stride: u64) -> u64 {
    let cell = mem[elem_addr(base, i, stride)];
    if stride == 8 {
        cell
    } else {
        (cell >> elem_shift(i, stride)) & elem_mask(stride)
    }
}

/// A cell with one element replaced.
pub open spec fn patched(cell: u64, v: u64, shift: u64, mask: u64) -> u64 {
    (cell & ((mask << shift) ^ u64::MAX)) | ((v << shift) & (mask << shift))
}

/// Memory once an element of a borrowed array was written.
pub open spec fn elem_written(mem: Map<u64, u64>, base: u64, i: int, v: u64, stride: u64) -> Map<
    u64,
    u64,
> {
    let addr = elem_addr(base, i, stride);
    if stride == 8 {
        mem.insert(addr, v)
    } else {
        mem.insert(
            addr,
            patched(mem[addr], v, elem_shift(i, stride), elem_mask(stride)),
        )
    }
}

/// The elements of an array of this length lie in memory.
pub open spec fn in_memory(base: u64, len: int, stride: u64) -> bool {
    0 <= len && base + 16 + len * stride <= u64::MAX
}

proof fn lemma_masks()
    ensures
        elem_mask(1) == 0xff,
        elem_mask(2) == 0xffff,
        elem_mask(4) == 0xffff_ffff,
        elem_mask(8) == u64::MAX,
{
    assert(1u64 << 8u64 == 0x100) by (bit_vector);
    assert(1u64 << 16u64 == 0x1_0000) by (bit_vector);
    assert(1u64 << 32u64 == 0x1_0000_0000) by (bit_vector);
}

proof fn lemma_patch(cell: u64, v: u64, s: u64, t: u64)
    ensures
        s <= 56 && s % 8 == 0 ==> (patched(cell, v, s, 0xff) >> s) & 0xff == v & 0xff,
        s <= 48 && s % 16 == 0 ==> (patched(cell, v, s, 0xffff) >> s) & 0xffff == v & 0xffff,
        s <= 32 && s % 32 == 0 ==> (patched(cell, v, s, 0xffff_ffff) >> s) & 0xffff_ffff == v
            & 0xffff_ffff,
        s <= 56 && s % 8 == 0 && t <= 56 && t % 8 == 0 && s != t ==> (patched(cell, v, s, 0xff) >> t)
            & 0xff == (cell >> t) & 0xff,
        s <= 48 && s % 16 == 0 && t <= 48 && t % 16 == 0 && s != t ==> (patched(cell, v, s, 0xffff)
            >> t) & 0xffff == (cell >> t) & 0xffff,
        s <= 32 && s % 32 == 0 && t <= 32 && t % 32 == 0 && s != t ==> (patched(
            cell,
            v,
            s,
            0xffff_ffff,
        ) >> t) & 0xffff_ffff == (cell >> t) & 0xffff_ffff,
{
    assert(s <= 56 && s % 8 == 0 ==> (((cell & ((0xffu64 << s) ^ 0xffff_ffff_ffff_ffff)) | ((v << s)
        & (0xffu64 << s))) >> s) & 0xff == v & 0xff) by (bit_vector);
    assert(s <= 48 && s % 16 == 0 ==> (((cell & ((0xffffu64 << s) ^ 0xffff_ffff_ffff_ffff)) | ((v
        << s) & (0xffffu64 << s))) >> s) & 0xffff == v & 0xffff) by (bit_vector);
    assert(s <= 32 && s % 32 == 0 ==> (((cell & ((0xffff_ffffu64 << s) ^ 0xffff_ffff_ffff_ffff)) | ((
    v << s) & (0xffff_ffffu64 << s))) >> s) & 0xffff_ffff == v & 0xffff_ffff) by (bit_vector);
    assert(s <= 56 && s % 8 == 0 && t <= 56 && t % 8 == 0 && s != t ==> (((cell & ((0xffu64 << s)
        ^ 0xffff_ffff_ffff_ffff)) | ((v << s) & (0xffu64 << s))) >> t) & 0xff == (cell >> t) & 0xff)
        by (bit_vector);
    assert(s <= 48 && s % 16 == 0 && t <= 48 && t % 16 == 0 && s != t ==> (((cell & ((0xffffu64
        << s) ^ 0xffff_ffff_ffff_ffff)) | ((v << s) & (0xffffu64 << s))) >> t) & 0xffff == (cell
        >> t) & 0xffff) by (bit_vector);
    assert(s <= 32 && s % 32 == 0 && t <= 32 && t % 32 == 0 && s != t ==> (((cell & ((0xffff_ffffu64
        << s) ^ 0xffff_ffff_ffff_ffff)) | ((v << s) & (0xffff_ffffu64 << s))) >> t) & 0xffff_ffff
        == (cell >> t) & 0xffff_ffff) by (bit_vector);
}

pub(crate) proof fn lemma_elem_in_memory(base: u64, len: int, i: int, stride: u64)
    requires
        in_memory(base, len, stride),
        stride > 0,
        0 <= i < len,
    ensures
        base + 8 * (1 + i * stride / 8) <= u64::MAX,
{
    assert(i * stride <= len * stride) by (nonlinear_arith)
        requires
            0 <= i < len,
            stride > 0,
    ;
    assert(0 <= i * stride) by (nonlinear_arith)
        requires
            0 <= i,
            stride > 0,
    ;
}

/// An element that was written is read back, cut to the width of the elements;
/// every other element reads as before.
#[verifier::rlimit(60)]
#[verifier::spinoff_prover]
pub proof fn a_written_element_is_read_back(
    mem: Map<u64, u64>,
    base: u64,
    len: int,
    i: int,
    j: int,
    v: u64,
    stride: u64,
)
    requires
        packs(stride),
        in_memory(base, len, stride),
        0 <= i < len,
        0 <= j < len,
    ensures
        elem_read(elem_written(mem, base, i, v, stride), base, j, stride) == (if i == j {
            v & elem_mask(stride)
        } else {
            elem_read(mem, base, j, stride)
        }),
{
    let ai = elem_addr(base, i, stride);
    let aj = elem_addr(base, j, stride);
    lemma_elem_in_memory(base, len, i, stride);
    lemma_elem_in_memory(base, len, j, stride);
    assert(v & 0xffff_ffff_ffff_ffffu64 == v) by (bit_vector);
    lemma_masks();
    lemma_patch(mem[ai], v, elem_shift(i, stride), elem_shift(j, stride));
    if stride == 1 {
        assert(i != j && ai == aj ==> elem_shift(i, 1) != elem_shift(j, 1));
    } else if stride == 2 {
        assert(elem_shift(i, 2) % 16 == 0 && elem_shift(j, 2) % 16 == 0);
        assert(i != j && ai == aj ==> elem_shift(i, 2) != elem_shift(j, 2));
    } else if stride == 4 {
        assert(elem_shift(i, 4) % 32 == 0 && elem_shift(j, 4) % 32 == 0);
        assert(i != j && ai == aj ==> elem_shift(i, 4) != elem_shift(j, 4));
    } else {
        assert(i != j ==> ai != aj);
    }
}

/// One command that has a value runs: the value is there, and what was there stays.
proof fn lemma_step(st: St, cmd: Cmd, ty: Ty, script: Seq<Cmd>, m: Machine, w: u64) -> (after: Machine)
    requires
        st.script.len() + 1 <= u64::MAX,
        extends(script, st.def(cmd, ty).0.script),
        match cmd {
            Cmd::Int { op, a, b, .. } => w == computes(op, m.value(a), m.value(b)),
            Cmd::IntTest { pred, a, b, .. } => w == flag(holds(pred, m.value(a), m.value(b))),
            Cmd::Gep { elem: Ty::I64, base, index, .. } => w == word(
                m.value(base) + m.value(index) * 8,
            ),
            Cmd::Gep { elem: Ty::I8, base, index, .. } => w == word(m.value(base) + m.value(index)),
            Cmd::Load { ty: Ty::I64, ptr, .. } => w == m.mem[m.value(ptr)],
            _ => false,
        },
    ensures
        extends(script, st.script),
        st.def(cmd, ty).0.script.len() == st.script.len() + 1,
        run(script, st.script.len() as int, m) == run(
            script,
            st.def(cmd, ty).0.script.len() as int,
            after,
        ),
        keeps(m, after, st.script.len() as int),
        ready(st.def(cmd, ty).0, st.def(cmd, ty).1),
        after.value(st.def(cmd, ty).1) == w,
        forall|v: Val| #[trigger]
            ready(st, v) ==> after.value(v) == m.value(v) && ready(st.def(cmd, ty).0, v),
{
    let n = st.script.len() as int;
    let end = st.def(cmd, ty).0;
    assert(end.script == st.script.push(cmd));
    assert(script[n] == end.script[n]);
    assert forall|i: int| 0 <= i < st.script.len() implies script[i] == #[trigger] st.script[i] by {
        assert(end.script[i] == st.script[i]);
    }
    let after = m.set(n, w);
    assert(run(script, n, m) == run(script, n + 1, after));
    after
}

/// What the place of an element is, once its code ran.
pub open spec fn placed(
    after: Machine,
    byte: Val,
    ptr: Val,
    base: u64,
    i: int,
    stride: u64,
) -> bool {
    after.value(byte) == i * stride && after.value(ptr) == elem_addr(base, i, stride)
}

proof fn lemma_place(
    st: St,
    base: Val,
    i: Val,
    stride: u64,
    script: Seq<Cmd>,
    m: Machine,
) -> (after: Machine)
    requires
        st.script.len() + 8 <= u64::MAX,
        packs(stride),
        ready(st, base),
        ready(st, i),
        in_memory(m.value(base), m.value(i) as int, stride),
        extends(script, st.place(base, i, stride).0.script),
    ensures
        extends(script, st.script),
        st.script.len() <= st.place(base, i, stride).0.script.len() <= st.script.len() + 4,
        run(script, st.script.len() as int, m) == run(
            script,
            st.place(base, i, stride).0.script.len() as int,
            after,
        ),
        keeps(m, after, st.script.len() as int),
        ready(st.place(base, i, stride).0, st.place(base, i, stride).1),
        ready(st.place(base, i, stride).0, st.place(base, i, stride).2),
        placed(
            after,
            st.place(base, i, stride).1,
            st.place(base, i, stride).2,
            m.value(base),
            m.value(i) as int,
            stride,
        ),
        forall|v: Val| #[trigger]
            ready(st, v) ==> after.value(v) == m.value(v) && ready(
                st.place(base, i, stride).0,
                v,
            ),
{
    let x = m.value(i);
    let b = m.value(base);
    let (s1, byte) = if stride == 1 {
        (st, i)
    } else {
        st.iop(IntOp::Mul, i, constant(stride), "array.byte")
    };
    let (s2, cell) = if stride == 8 {
        (s1, i)
    } else {
        s1.iop(IntOp::UDiv, byte, constant(8), "array.cell")
    };
    let (s3, slot) = s2.iop(IntOp::Add, cell, constant(1), "array.slot");
    let (s4, ptr) = s3.gep(Ty::I64, base, slot, "array.elem.ptr");
    lemma_back(script, s3.script, s4.script);
    lemma_back(script, s2.script, s3.script);
    lemma_back(script, s1.script, s2.script);
    assert(x * stride + 16 + b <= u64::MAX);
    assert(0 <= x * stride) by (nonlinear_arith);
    let m1 = if stride == 1 {
        assert(x * 1 == x);
        m
    } else {
        lemma_step(
            st,
            Cmd::Int { op: IntOp::Mul, a: i, b: constant(stride), label: "array.byte" },
            i.ty,
            script,
            m,
            (x * stride) as u64,
        )
    };
    assert(m1.value(byte) == x * stride);
    let m2 = if stride == 8 {
        m1
    } else {
        lemma_step(
            s1,
            Cmd::Int { op: IntOp::UDiv, a: byte, b: constant(8), label: "array.cell" },
            byte.ty,
            script,
            m1,
            (x * stride / 8) as u64,
        )
    };
    assert(m2.value(cell) == x * stride / 8);
    let m3 = lemma_step(
        s2,
        Cmd::Int { op: IntOp::Add, a: cell, b: constant(1), label: "array.slot" },
        cell.ty,
        script,
        m2,
        (x * stride / 8 + 1) as u64,
    );
    lemma_step(
        s3,
        Cmd::Gep { elem: Ty::I64, base, index: slot, label: "array.elem.ptr" },
        Ty::Ptr,
        script,
        m3,
        elem_addr(b, x as int, stride),
    )
}

proof fn lemma_back(script: Seq<Cmd>, start: Seq<Cmd>, end: Seq<Cmd>)
    requires
        extends(script, end),
        extends(end, start),
    ensures
        extends(script, start),
{
    assert forall|i: int| 0 <= i < start.len() implies script[i] == #[trigger] start[i] by {
        assert(end[i] == start[i]);
    }
}

/// An index in the bounds of an array.
pub open spec fn in_bounds(m: Machine, raw: RawArray, i: Val) -> bool {
    0 <= signed(m.value(i)) < signed(m.value(raw.len))
}

/// What the laws of array accesses take for granted: the index is a value that is
/// there, the array lies in memory, and a check is left out only for an index in
/// the bounds.
pub open spec fn addressable(
    st: St,
    raw: RawArray,
    idx: Atom,
    i: Val,
    stride: u64,
    proved: bool,
    m: Machine,
) -> bool {
    &&& roomy(st)
    &&& packs(stride)
    &&& ready(st, raw.base)
    &&& ready(st, raw.len)
    &&& ready(st, i)
    &&& st.cell(idx, "array index") == Ok::<(St, Val), CodegenError>((st, i))
    &&& in_memory(m.value(raw.base), signed(m.value(raw.len)), stride) || signed(
        m.value(raw.len),
    ) < 0
    &&& proved ==> in_bounds(m, raw, i)
}

proof fn lemma_slot(
    st: St,
    raw: RawArray,
    idx: Atom,
    i: Val,
    stride: u64,
    proved: bool,
    script: Seq<Cmd>,
    m: Machine,
) -> (after: Machine)
    requires
        addressable(st, raw, idx, i, stride, proved, m),
        extends(script, st.borrowed_slot(raw, idx, stride, proved)->Ok_0.0.script),
    ensures
        st.borrowed_slot(raw, idx, stride, proved) is Ok,
        match st.borrowed_slot(raw, idx, stride, proved)->Ok_0 {
            (end, byte, ptr) => if in_bounds(m, raw, i) {
                &&& st.script.len() <= end.script.len() <= st.script.len() + 14
                &&& run(script, st.script.len() as int, m) == run(
                    script,
                    end.script.len() as int,
                    after,
                )
                &&& keeps(m, after, st.script.len() as int)
                &&& ready(end, byte)
                &&& ready(end, ptr)
                &&& placed(
                    after,
                    byte,
                    ptr,
                    m.value(raw.base),
                    signed(m.value(i)),
                    stride,
                )
                &&& forall|v: Val| #[trigger]
                    ready(st, v) ==> after.value(v) == m.value(v) && ready(end, v)
            } else {
                run(script, st.script.len() as int, m) is Trap
            },
        },
{
    let n = st.script.len() as int;
    let end = st.borrowed_slot(raw, idx, stride, proved)->Ok_0.0;
    let (s1, neg) = st.itest(IntPred::Slt, i, constant(0), "array.idx.neg");
    let (s2, past) = s1.itest(IntPred::Sge, i, raw.len, "array.idx.past");
    let (s3, bad) = s2.iop(IntOp::Or, neg, past, "array.idx.bad");
    let s4 = s3.trap_if(bad, "array.index.trap", "array.index.cont", "array.index.abort");
    let from = if proved {
        st
    } else {
        s4
    };
    assert(extends(end.script, from.script));
    lemma_back(script, from.script, end.script);
    let x = signed(m.value(i));
    let len = signed(m.value(raw.len));
    if in_bounds(m, raw, i) {
        assert(x * stride <= len * stride) by (nonlinear_arith)
            requires
                0 <= x <= len,
        ;
    }
    if proved {
        lemma_place(st, raw.base, i, stride, script, m)
    } else {
        assert(extends(s4.script, s3.script));
        lemma_back(script, s3.script, s4.script);
        lemma_back(script, s2.script, s3.script);
        lemma_back(script, s1.script, s2.script);
        let fneg = flag(holds(IntPred::Slt, m.value(i), 0));
        let fpast = flag(holds(IntPred::Sge, m.value(i), m.value(raw.len)));
        let m1 = lemma_step(
            st,
            Cmd::IntTest { pred: IntPred::Slt, a: i, b: constant(0), label: "array.idx.neg" },
            Ty::I1,
            script,
            m,
            fneg,
        );
        let m2 = lemma_step(
            s1,
            Cmd::IntTest { pred: IntPred::Sge, a: i, b: raw.len, label: "array.idx.past" },
            Ty::I1,
            script,
            m1,
            fpast,
        );
        let m3 = lemma_step(
            s2,
            Cmd::Int { op: IntOp::Or, a: neg, b: past, label: "array.idx.bad" },
            neg.ty,
            script,
            m2,
            fneg | fpast,
        );
        assert(0u64 | 0u64 == 0 && 0u64 | 1u64 == 1 && 1u64 | 0u64 == 1 && 1u64 | 1u64 == 1)
            by (bit_vector);
        a_trap_guards_what_follows(
            s3,
            bad,
            "array.index.trap",
            "array.index.cont",
            "array.index.abort",
            script,
            m3,
        );
        if in_bounds(m, raw, i) {
            let m4 = m3.left(opened(script, s3.script.len() as int));
            assert(m4.value(i) == m.value(i) && m4.value(raw.base) == m.value(raw.base));
            assert(ready(s4, i) && ready(s4, raw.base));
            let after = lemma_place(s4, raw.base, i, stride, script, m4);
            assert forall|v: Val| #[trigger] ready(st, v) implies after.value(v) == m.value(v)
                && ready(end, v) by {
                assert(ready(s1, v) && ready(s2, v) && ready(s3, v) && ready(s4, v));
                assert(m4.value(v) == m3.value(v));
            }
            after
        } else {
            m3
        }
    }
}

/// Reading an element of a borrowed array gives the element where the index is in
/// the bounds, and traps where it is not.
pub proof fn an_array_read_gives_the_element(
    st: St,
    raw: RawArray,
    idx: Atom,
    i: Val,
    stride: u64,
    proved: bool,
    script: Seq<Cmd>,
    m: Machine,
)
    requires
        addressable(st, raw, idx, i, stride, proved, m),
        extends(script, st.borrowed_get(raw, idx, stride, proved)->Ok_0.0.script),
    ensures
        match st.borrowed_get(raw, idx, stride, proved) {
            Ok((end, v)) => if in_bounds(m, raw, i) {
                yields(
                    script,
                    st.script.len() as int,
                    m,
                    end.script.len() as int,
                    v,
                    elem_read(m.mem, m.value(raw.base), signed(m.value(i)), stride),
                )
            } else {
                run(script, st.script.len() as int, m) is Trap
            },
            Err(_) => false,
        },
{
    let x = signed(m.value(i));
    let end = st.borrowed_get(raw, idx, stride, proved)->Ok_0.0;
    let (s0, byte, ptr) = st.borrowed_slot(raw, idx, stride, proved)->Ok_0;
    let (s1, cell) = s0.load(Ty::I64, ptr, "array.elem.raw");
    let (s2, first) = s1.iop(IntOp::URem, byte, constant(8), "array.byte.in.cell");
    let (s3, shift) = s2.iop(IntOp::Mul, first, constant(8), "array.shift");
    let (s4, down) = s3.iop(IntOp::LShr, cell, shift, "array.shifted");
    if stride != 8 {
        lemma_back(script, s4.script, end.script);
        lemma_back(script, s3.script, s4.script);
        lemma_back(script, s2.script, s3.script);
        lemma_back(script, s1.script, s2.script);
    }
    lemma_back(script, s0.script, s1.script);
    let m0 = lemma_slot(st, raw, idx, i, stride, proved, script, m);
    if in_bounds(m, raw, i) {
        let word0 = m.mem[elem_addr(m.value(raw.base), x, stride)];
        let m1 = lemma_step(
            s0,
            Cmd::Load { ty: Ty::I64, ptr, align: 0, label: Title::Fixed("array.elem.raw") },
            Ty::I64,
            script,
            m0,
            word0,
        );
        if stride == 8 {
            assert(keeps(m, m1, st.script.len() as int));
        } else {
            let m2 = lemma_step(
                s1,
                Cmd::Int { op: IntOp::URem, a: byte, b: constant(8), label: "array.byte.in.cell" },
                byte.ty,
                script,
                m1,
                (x * stride % 8) as u64,
            );
            let m3 = lemma_step(
                s2,
                Cmd::Int { op: IntOp::Mul, a: first, b: constant(8), label: "array.shift" },
                first.ty,
                script,
                m2,
                elem_shift(x, stride),
            );
            let m4 = lemma_step(
                s3,
                Cmd::Int { op: IntOp::LShr, a: cell, b: shift, label: "array.shifted" },
                cell.ty,
                script,
                m3,
                word0 >> elem_shift(x, stride),
            );
            let m5 = lemma_step(
                s4,
                Cmd::Int {
                    op: IntOp::And,
                    a: down,
                    b: constant(elem_mask(stride)),
                    label: "array.elem",
                },
                down.ty,
                script,
                m4,
                (word0 >> elem_shift(x, stride)) & elem_mask(stride),
            );
            assert(keeps(m, m5, st.script.len() as int));
        }
    }
}

/// The code behind `n` goes on at `end` with this memory.
pub open spec fn writes(script: Seq<Cmd>, n: int, m: Machine, end: int, mem: Map<u64, u64>) -> bool {
    exists|after: Machine| #[trigger]
        keeps(Machine { mem, ..m }, after, n) && run(script, n, m) == run(script, end, after)
}

/// Writing an element of a borrowed array replaces that element where the index is
/// in the bounds, and traps where it is not.
pub proof fn an_array_write_replaces_the_element(
    st: St,
    raw: RawArray,
    idx: Atom,
    i: Val,
    val: Atom,
    v: Val,
    stride: u64,
    proved: bool,
    script: Seq<Cmd>,
    m: Machine,
)
    requires
        addressable(st, raw, idx, i, stride, proved, m),
        ready(st, v),
        st.cell(val, "array element") == Ok::<(St, Val), CodegenError>((st, v)),
        extends(script, st.borrowed_set(raw, idx, val, stride, proved)->Ok_0.script),
    ensures
        match st.borrowed_set(raw, idx, val, stride, proved) {
            Ok(end) => if in_bounds(m, raw, i) {
                writes(
                    script,
                    st.script.len() as int,
                    m,
                    end.script.len() as int,
                    elem_written(
                        m.mem,
                        m.value(raw.base),
                        signed(m.value(i)),
                        m.value(v),
                        stride,
                    ),
                )
            } else {
                run(script, st.script.len() as int, m) is Trap
            },
            Err(_) => false,
        },
{
    let n = st.script.len() as int;
    let x = signed(m.value(i));
    let end = st.borrowed_set(raw, idx, val, stride, proved)->Ok_0;
    let (s0, byte, ptr) = st.borrowed_slot(raw, idx, stride, proved)->Ok_0;
    let mask = constant(elem_mask(stride));
    let (s1, cell) = s0.load(Ty::I64, ptr, "array.store.old");
    let (s2, first) = s1.iop(IntOp::URem, byte, constant(8), "array.store.byte.in.cell");
    let (s3, shift) = s2.iop(IntOp::Mul, first, constant(8), "array.store.shift");
    let (s4, place) = s3.iop(IntOp::Shl, mask, shift, "array.store.shifted.mask");
    let (s5, rest) = s4.iop(IntOp::Xor, place, constant(u64::MAX), "array.store.clear.mask");
    let (s6, kept) = s5.iop(IntOp::And, cell, rest, "array.store.cleared");
    let (s7, up) = s6.iop(IntOp::Shl, v, shift, "array.store.shifted.payload");
    let (s8, bits) = s7.iop(IntOp::And, up, place, "array.store.payload");
    let (s9, new) = s8.iop(IntOp::Or, kept, bits, "array.store.new");
    if stride != 8 {
        lemma_back(script, s9.script, end.script);
        lemma_back(script, s8.script, s9.script);
        lemma_back(script, s7.script, s8.script);
        lemma_back(script, s6.script, s7.script);
        lemma_back(script, s5.script, s6.script);
        lemma_back(script, s4.script, s5.script);
        lemma_back(script, s3.script, s4.script);
        lemma_back(script, s2.script, s3.script);
        lemma_back(script, s1.script, s2.script);
        lemma_back(script, s0.script, s1.script);
    } else {
        lemma_back(script, s0.script, end.script);
    }
    let m0 = lemma_slot(st, raw, idx, i, stride, proved, script, m);
    if in_bounds(m, raw, i) {
        let addr = elem_addr(m.value(raw.base), x, stride);
        let mem = elem_written(m.mem, m.value(raw.base), x, m.value(v), stride);
        if stride == 8 {
            let k = s0.script.len() as int;
            let after = Machine { mem, ..m0 };
            assert(script[k] == end.script[k]);
            assert(run(script, k, m0) == run(script, k + 1, after));
            assert(keeps(Machine { mem, ..m }, after, n));
        } else {
            let s = elem_shift(x, stride);
            let wmask = elem_mask(stride);
            let old_cell = m.mem[addr];
            let m1 = lemma_step(
                s0,
                Cmd::Load { ty: Ty::I64, ptr, align: 0, label: Title::Fixed("array.store.old") },
                Ty::I64,
                script,
                m0,
                old_cell,
            );
            let m2 = lemma_step(
                s1,
                Cmd::Int {
                    op: IntOp::URem,
                    a: byte,
                    b: constant(8),
                    label: "array.store.byte.in.cell",
                },
                byte.ty,
                script,
                m1,
                (x * stride % 8) as u64,
            );
            let m3 = lemma_step(
                s2,
                Cmd::Int { op: IntOp::Mul, a: first, b: constant(8), label: "array.store.shift" },
                first.ty,
                script,
                m2,
                s,
            );
            let m4 = lemma_step(
                s3,
                Cmd::Int { op: IntOp::Shl, a: mask, b: shift, label: "array.store.shifted.mask" },
                mask.ty,
                script,
                m3,
                wmask << s,
            );
            let m5 = lemma_step(
                s4,
                Cmd::Int {
                    op: IntOp::Xor,
                    a: place,
                    b: constant(u64::MAX),
                    label: "array.store.clear.mask",
                },
                place.ty,
                script,
                m4,
                (wmask << s) ^ u64::MAX,
            );
            let m6 = lemma_step(
                s5,
                Cmd::Int { op: IntOp::And, a: cell, b: rest, label: "array.store.cleared" },
                cell.ty,
                script,
                m5,
                old_cell & ((wmask << s) ^ u64::MAX),
            );
            let m7 = lemma_step(
                s6,
                Cmd::Int { op: IntOp::Shl, a: v, b: shift, label: "array.store.shifted.payload" },
                v.ty,
                script,
                m6,
                m.value(v) << s,
            );
            let m8 = lemma_step(
                s7,
                Cmd::Int { op: IntOp::And, a: up, b: place, label: "array.store.payload" },
                up.ty,
                script,
                m7,
                (m.value(v) << s) & (wmask << s),
            );
            let m9 = lemma_step(
                s8,
                Cmd::Int { op: IntOp::Or, a: kept, b: bits, label: "array.store.new" },
                kept.ty,
                script,
                m8,
                patched(old_cell, m.value(v), s, wmask),
            );
            let k = s9.script.len() as int;
            let after = Machine { mem, ..m9 };
            assert(script[k] == end.script[k]);
            assert(run(script, k, m9) == run(script, k + 1, after));
            assert(keeps(Machine { mem, ..m }, after, n));
        }
    }
}

// ── vectors in arrays ────────────────────────────────────────────────────
/// `lanes` elements from the index on lie inside an array.
pub open spec fn inside(i: u64, lanes: u64, len: u64) -> bool {
    0 <= signed(i) && signed(i) + lanes <= signed(len)
}

proof fn lemma_lanes_guard(
    st: St,
    i: Val,
    lanes: u64,
    len: Val,
    script: Seq<Cmd>,
    m: Machine,
) -> (after: Machine)
    requires
        roomy(st),
        ready(st, len),
        ready(st, i),
        lanes <= 8,
        0 <= signed(m.value(len)),
        extends(script, st.lanes_guard(i, lanes, len).script),
    ensures
        st.lanes_guard(i, lanes, len).script.len() == st.script.len() + 11,
        if inside(m.value(i), lanes, m.value(len)) {
            &&& run(script, st.script.len() as int, m) == run(
                script,
                st.lanes_guard(i, lanes, len).script.len() as int,
                after,
            )
            &&& keeps(m, after, st.script.len() as int)
            &&& forall|v: Val| #[trigger]
                ready(st, v) ==> after.value(v) == m.value(v) && ready(
                    st.lanes_guard(i, lanes, len),
                    v,
                )
        } else {
            run(script, st.script.len() as int, m) is Trap
        },
{
    let (s1, neg) = st.itest(IntPred::Slt, i, constant(0), "vec.idx.neg");
    let (s2, stop) = s1.iop(IntOp::Sub, len, constant(lanes), "vec.idx.last");
    let (s3, past) = s2.itest(IntPred::Sgt, i, stop, "vec.idx.past");
    let (s4, bad) = s3.iop(IntOp::Or, neg, past, "vec.idx.bad");
    let s5 = s4.trap_if(bad, "vector.index.trap", "vector.index.cont", "vector.index.abort");
    assert(extends(s5.script, s4.script));
    lemma_back(script, s4.script, s5.script);
    lemma_back(script, s3.script, s4.script);
    lemma_back(script, s2.script, s3.script);
    lemma_back(script, s1.script, s2.script);
    let x = signed(m.value(i));
    let top = word(m.value(len) - lanes);
    lemma_word_arith(m.value(len), lanes);
    assert(signed(top) == signed(m.value(len)) - lanes);
    let fneg = flag(x < 0);
    let fpast = flag(x > signed(top));
    let m1 = lemma_step(
        st,
        Cmd::IntTest { pred: IntPred::Slt, a: i, b: constant(0), label: "vec.idx.neg" },
        Ty::I1,
        script,
        m,
        fneg,
    );
    let m2 = lemma_step(
        s1,
        Cmd::Int { op: IntOp::Sub, a: len, b: constant(lanes), label: "vec.idx.last" },
        len.ty,
        script,
        m1,
        top,
    );
    let m3 = lemma_step(
        s2,
        Cmd::IntTest { pred: IntPred::Sgt, a: i, b: stop, label: "vec.idx.past" },
        Ty::I1,
        script,
        m2,
        fpast,
    );
    let m4 = lemma_step(
        s3,
        Cmd::Int { op: IntOp::Or, a: neg, b: past, label: "vec.idx.bad" },
        neg.ty,
        script,
        m3,
        fneg | fpast,
    );
    assert(0u64 | 0u64 == 0 && 0u64 | 1u64 == 1 && 1u64 | 0u64 == 1 && 1u64 | 1u64 == 1)
        by (bit_vector);
    a_trap_guards_what_follows(
        s4,
        bad,
        "vector.index.trap",
        "vector.index.cont",
        "vector.index.abort",
        script,
        m4,
    );
    let after = m4.left(opened(script, s4.script.len() as int));
    assert forall|v: Val| #[trigger] ready(st, v) implies after.value(v) == m.value(v) && ready(
        st.lanes_guard(i, lanes, len),
        v,
    ) by {
        assert(ready(s1, v) && ready(s2, v) && ready(s3, v) && ready(s4, v));
        assert(after.value(v) == m4.value(v));
    }
    after
}

proof fn lemma_lanes_place(
    st: St,
    base: Val,
    i: Val,
    bytes: u64,
    script: Seq<Cmd>,
    m: Machine,
) -> (after: Machine)
    requires
        st.script.len() + 8 <= u64::MAX,
        ready(st, base),
        ready(st, i),
        m.value(base) + 8 + m.value(i) * bytes <= u64::MAX,
        extends(script, st.lanes_place(base, i, bytes).0.script),
    ensures
        extends(script, st.script),
        run(script, st.script.len() as int, m) == run(
            script,
            st.lanes_place(base, i, bytes).0.script.len() as int,
            after,
        ),
        keeps(m, after, st.script.len() as int),
        after.value(st.lanes_place(base, i, bytes).1) == m.value(base) + 8 + m.value(i) * bytes,
{
    let (s6, off) = st.iop(IntOp::Mul, i, constant(bytes), "vec.byte");
    let (s7, at) = s6.iop(IntOp::Add, off, constant(8), "vec.byte.hdr");
    let end = st.lanes_place(base, i, bytes).0;
    lemma_back(script, s7.script, end.script);
    lemma_back(script, s6.script, s7.script);
    let x = m.value(i);
    assert(0 <= x * bytes) by (nonlinear_arith);
    let m5 = lemma_step(
        st,
        Cmd::Int { op: IntOp::Mul, a: i, b: constant(bytes), label: "vec.byte" },
        i.ty,
        script,
        m,
        (x * bytes) as u64,
    );
    let m6 = lemma_step(
        s6,
        Cmd::Int { op: IntOp::Add, a: off, b: constant(8), label: "vec.byte.hdr" },
        off.ty,
        script,
        m5,
        (x * bytes + 8) as u64,
    );
    lemma_step(
        s7,
        Cmd::Gep { elem: Ty::I8, base, index: at, label: "vec.elem.ptr" },
        Ty::Ptr,
        script,
        m6,
        (m.value(base) + 8 + x * bytes) as u64,
    )
}

/// The code that finds the lanes of a vector in an array traps unless the whole
/// vector lies inside the array, and gives the address of the first lane if it does.
pub proof fn a_vector_access_stays_inside_the_array(
    st: St,
    base: Val,
    i: Val,
    lanes: u64,
    bytes: u64,
    len: Val,
    script: Seq<Cmd>,
    m: Machine,
)
    requires
        roomy(st),
        ready(st, base),
        ready(st, len),
        ready(st, i),
        lanes <= 8,
        0 <= signed(m.value(len)),
        m.value(base) + 8 + signed(m.value(len)) * bytes <= u64::MAX,
        extends(script, st.lanes_guard(i, lanes, len).lanes_place(base, i, bytes).0.script),
    ensures
        if inside(m.value(i), lanes, m.value(len)) {
            yields(
                script,
                st.script.len() as int,
                m,
                st.lanes_guard(i, lanes, len).lanes_place(base, i, bytes).0.script.len() as int,
                st.lanes_guard(i, lanes, len).lanes_place(base, i, bytes).1,
                (m.value(base) + 8 + m.value(i) * bytes) as u64,
            )
        } else {
            run(script, st.script.len() as int, m) is Trap
        },
{
    let guarded = st.lanes_guard(i, lanes, len);
    let end = guarded.lanes_place(base, i, bytes).0;
    assert(extends(end.script, guarded.script));
    lemma_back(script, guarded.script, end.script);
    let mid = lemma_lanes_guard(st, i, lanes, len, script, m);
    if inside(m.value(i), lanes, m.value(len)) {
        let x = m.value(i);
        let top = signed(m.value(len));
        assert(x * bytes <= top * bytes) by (nonlinear_arith)
            requires
                0 <= x <= top,
        ;
        let after = lemma_lanes_place(guarded, base, i, bytes, script, mid);
        assert(keeps(m, after, st.script.len() as int));
    }
}

} // verus!
