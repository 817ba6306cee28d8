//! Programs are lowered and their commands are looked at or run on a small
//! machine with a heap that never collects.
use locus_llvm::emit::{emit_library_module, emit_module, emit_module_within, LibExport};
use locus_llvm::blocks::Param;
use locus_llvm::ir::{
    Atom, BinOp, CallArg, CastOp, Comp, ExternAbi, Field, FloatMathOp, Ir, IrBind, IrHandler, IrOpClause,
    IrRetClause, Label, LoopVar, MaskReduceOp, MemWidth, Row, Shape, Type, ValueLayout, VectorShape, Width,
};
use locus_llvm::target::{
    Callee, Cmd, Conv, FloatOp, FloatPred, FuncName, Id, IntOp, IntPred, Module, Ty, Val,
};
use std::collections::HashMap;
use std::rc::Rc;

// ── building programs ────────────────────────────────────────────────────
fn pure() -> Rc<Row> {
    Rc::new(Row { labels: vec![] })
}

fn gc() -> Rc<Row> {
    Rc::new(Row { labels: vec![Label::Gc] })
}

fn int_ty() -> Rc<Type> {
    Rc::new(Type::Int)
}

fn float() -> Rc<Type> {
    Rc::new(Type::Float)
}

fn float32() -> Rc<Type> {
    Rc::new(Type::Float32)
}

fn fun(a: Rc<Type>, r: Rc<Type>) -> Rc<Type> {
    Rc::new(Type::Fun(a, r, pure()))
}

fn array() -> Rc<Type> {
    Rc::new(Type::Named("Array".to_string()))
}

fn cell() -> ValueLayout {
    ValueLayout::scalar_cell()
}

fn handle() -> ValueLayout {
    ValueLayout::pointer_cell()
}

fn n(v: i64) -> Atom {
    Atom::Int(v)
}

fn f(v: f64) -> Atom {
    Atom::Float(v.to_bits())
}

fn v(name: &str) -> Atom {
    Atom::Var(name.to_string())
}

fn ret(comp: Comp) -> Ir {
    Ir::Ret { row: pure(), comp: Rc::new(comp) }
}

fn give(a: Atom) -> Ir {
    ret(Comp::Atom(a))
}

fn bind(name: &str, ty: Rc<Type>, layout: ValueLayout, comp: Comp, rest: Ir) -> Ir {
    Ir::Let {
        name: name.to_string(),
        ty,
        layout,
        row: pure(),
        comp: Rc::new(comp),
        rest: Rc::new(rest),
    }
}

fn set(name: &str, comp: Comp, rest: Ir) -> Ir {
    bind(name, int_ty(), cell(), comp, rest)
}

fn bin(op: BinOp, a: Atom, b: Atom) -> Comp {
    Comp::Bin(op, a, b)
}

fn lam(param: &str, ret_ty: Rc<Type>, body: Ir) -> Comp {
    lam_of(param, int_ty(), cell(), ret_ty, body)
}

fn lam_of(param: &str, ty: Rc<Type>, layout: ValueLayout, ret_ty: Rc<Type>, body: Ir) -> Comp {
    Comp::Lam {
        param: param.to_string(),
        param_ty: Some(ty),
        param_layout: layout,
        ret_ty,
        body: Rc::new(body),
    }
}

fn app(fun: Atom, arg: Atom) -> Comp {
    app_to(fun, arg, int_ty(), cell())
}

fn app_to(fun: Atom, arg: Atom, ret_ty: Rc<Type>, ret_layout: ValueLayout) -> Comp {
    Comp::App { fun, arg, arg_ty: int_ty(), ret_ty, ret_layout }
}

fn branch(c: Atom, yes: Ir, no: Ir) -> Comp {
    Comp::If(c, Rc::new(yes), Rc::new(no))
}

fn accumulator(name: &str, init: Atom) -> LoopVar {
    LoopVar { name: name.to_string(), ty: int_ty(), layout: cell(), init }
}

fn repeat(vars: Vec<LoopVar>, cond: Ir, steps: Vec<Ir>, result: Ir) -> Comp {
    Comp::Loop { vars, cond: Rc::new(cond), steps, result: Rc::new(result) }
}

fn ints(elems: &[i64]) -> Comp {
    Comp::ArrayLit { elems: elems.iter().map(|e| n(*e)).collect(), elem_layout: cell() }
}

fn get(arr: &str, idx: Atom) -> Comp {
    Comp::ArrayGet { arr: v(arr), idx, elem_layout: cell(), elem_ty: int_ty() }
}

fn put(arr: &str, idx: Atom, val: Atom) -> Comp {
    Comp::ArraySet { arr: v(arr), idx, val, elem_layout: cell() }
}

fn with_array(name: &str, elems: &[i64], rest: Ir) -> Ir {
    Ir::Let {
        name: name.to_string(),
        ty: array(),
        layout: handle(),
        row: gc(),
        comp: Rc::new(ints(elems)),
        rest: Rc::new(rest),
    }
}

/// `i < len arr`
fn below_len(arr: &str) -> Ir {
    set("limit", Comp::Len(v(arr)), ret(bin(BinOp::Lt, v("i"), v("limit"))))
}

fn packed_float() -> ValueLayout {
    ValueLayout::scalar_bytes(4, 4)
}

/// `let name = [toFloat32 e, …] in rest`
fn with_floats(name: &str, elems: &[f64], rest: Ir) -> Ir {
    let names: Vec<String> = (0..elems.len()).map(|i| format!("{name}{i}")).collect();
    let lit = Ir::Let {
        name: name.to_string(),
        ty: array(),
        layout: handle(),
        row: gc(),
        comp: Rc::new(Comp::ArrayLit {
            elems: names.iter().map(|x| v(x)).collect(),
            elem_layout: packed_float(),
        }),
        rest: Rc::new(rest),
    };
    let mut out = lit;
    for (i, e) in elems.iter().enumerate().rev() {
        out = bind(&names[i], float32(), packed_float(), Comp::Cast(CastOp::ToFloat32, f(*e)), out);
    }
    out
}

fn quad_ty() -> Rc<Type> {
    Rc::new(Type::Vector(VectorShape::Quad, float32()))
}

fn quad_layout() -> ValueLayout {
    ValueLayout::scalar_bytes(16, 16)
}

/// `round (fromFloat32 (atom))`
fn rounded(a: Atom) -> Ir {
    bind(
        "wide",
        float(),
        cell(),
        Comp::Cast(CastOp::FromFloat32, a),
        ret(Comp::Cast(CastOp::Round, v("wide"))),
    )
}

// ── looking at commands ──────────────────────────────────────────────────
fn lowered(ir: &Ir) -> Module {
    emit_module(ir, false).unwrap()
}

fn calls_of(m: &Module, name: &str) -> Vec<usize> {
    m.script
        .iter()
        .enumerate()
        .filter(|(_, c)| matches!(c, Cmd::Call { callee: Callee::Known(k), .. } if *k == name))
        .map(|(i, _)| i)
        .collect()
}

fn calls(m: &Module, name: &str) -> bool {
    !calls_of(m, name).is_empty()
}

fn has_block(m: &Module, label: &str) -> bool {
    m.script.iter().any(|c| matches!(c, Cmd::Block { label: l, .. } if *l == label))
}

fn has_label(m: &Module, name: &str) -> bool {
    m.script.iter().any(|c| match c {
        Cmd::Int { label, .. } | Cmd::IntTest { label, .. } | Cmd::Gep { label, .. } => *label == name,
        _ => false,
    })
}

/// The positions of the values that are called so.
fn titled(m: &Module, name: &str) -> Vec<u64> {
    m.script
        .iter()
        .enumerate()
        .filter(|(_, c)| match c {
            Cmd::Load { label, .. } | Cmd::EntryAlloca { label, .. } | Cmd::Phi { label, .. } => {
                label.to_text() == name
            }
            _ => false,
        })
        .map(|(i, _)| i as u64)
        .collect()
}

/// The function in which a command stands.
fn function_of(m: &Module, at: usize) -> Option<u64> {
    let block = m.script[..at].iter().rev().find_map(|c| match c {
        Cmd::At { block } => Some(*block),
        _ => None,
    })?;
    match &m.script[block as usize] {
        Cmd::Block { func, .. } => Some(*func),
        other => panic!("{other:?} is no block"),
    }
}

fn ints_with(m: &Module, want: IntOp) -> bool {
    m.script.iter().any(|c| matches!(c, Cmd::Int { op, .. } if *op == want))
}

fn lifted(m: &Module) -> usize {
    m.script
        .iter()
        .filter(|c| matches!(c, Cmd::Func { name: FuncName::Lam(_), .. } | Cmd::Func { name: FuncName::Fast(_), .. }))
        .count()
}

fn block_at(m: &Module, label: &str) -> u64 {
    m.script
        .iter()
        .position(|c| matches!(c, Cmd::Block { label: l, .. } if *l == label))
        .expect("the block is there") as u64
}

fn vector_loads(m: &Module) -> usize {
    m.script.iter().filter(|c| matches!(c, Cmd::Load { ty: Ty::VecF32(4), .. })).count()
}

// ── running commands ─────────────────────────────────────────────────────
#[derive(Clone, Debug, PartialEq)]
enum V {
    W(u64),
    Lanes(Vec<u64>),
    Pair(u64, bool),
}

impl V {
    fn w(&self) -> u64 {
        match self {
            V::W(x) => *x,
            other => panic!("a word is needed, not {other:?}"),
        }
    }

    fn lanes(&self) -> Vec<u64> {
        match self {
            V::Lanes(x) => x.clone(),
            other => panic!("lanes are needed, not {other:?}"),
        }
    }
}

#[derive(Debug, PartialEq)]
enum Stop {
    Trap,
}

type Step = Result<V, Stop>;

const CODE: u64 = 0x7000_0000_0000_0000;

struct Machine<'m> {
    script: &'m [Cmd],
    /// The commands of each block, by their positions.
    blocks: HashMap<u64, Vec<usize>>,
    /// The first block of each function.
    entries: HashMap<u64, u64>,
    incoming: HashMap<u64, Vec<(u64, Val)>>,
    mem: HashMap<u64, u8>,
    next: u64,
    /// The pointer cells of each object.
    objects: HashMap<u64, u64>,
    foreign: Vec<(String, Vec<u64>)>,
}

struct Frame {
    func: u64,
    params: Vec<V>,
    regs: HashMap<u64, V>,
}

fn bytes_of(ty: Ty) -> u64 {
    match ty {
        Ty::I1 | Ty::I8 => 1,
        Ty::I16 => 2,
        Ty::I32 | Ty::F32 => 4,
        _ => 8,
    }
}

fn float_op(op: FloatOp, wide: bool, a: u64, b: u64) -> u64 {
    if wide {
        let (x, y) = (f64::from_bits(a), f64::from_bits(b));
        (match op {
            FloatOp::Add => x + y,
            FloatOp::Sub => x - y,
            FloatOp::Mul => x * y,
            FloatOp::Div => x / y,
        })
        .to_bits()
    } else {
        let (x, y) = (f32::from_bits(a as u32), f32::from_bits(b as u32));
        (match op {
            FloatOp::Add => x + y,
            FloatOp::Sub => x - y,
            FloatOp::Mul => x * y,
            FloatOp::Div => x / y,
        })
        .to_bits() as u64
    }
}

fn float_test(pred: FloatPred, wide: bool, a: u64, b: u64) -> u64 {
    let (x, y) = if wide {
        (f64::from_bits(a), f64::from_bits(b))
    } else {
        (f32::from_bits(a as u32) as f64, f32::from_bits(b as u32) as f64)
    };
    (match pred {
        FloatPred::Oeq => x == y,
        FloatPred::One => x < y || x > y,
        FloatPred::Olt => x < y,
        FloatPred::Ole => x <= y,
        FloatPred::Ogt => x > y,
        FloatPred::Oge => x >= y,
    }) as u64
}

impl<'m> Machine<'m> {
    fn new(m: &'m Module) -> Machine<'m> {
        let mut blocks: HashMap<u64, Vec<usize>> = HashMap::new();
        let mut entries: HashMap<u64, u64> = HashMap::new();
        let mut incoming: HashMap<u64, Vec<(u64, Val)>> = HashMap::new();
        let mut here = 0u64;
        for (i, c) in m.script.iter().enumerate() {
            match c {
                Cmd::Func { .. } | Cmd::Declare { .. } | Cmd::Param { .. } => {}
                Cmd::Block { func, .. } => {
                    entries.entry(*func).or_insert(i as u64);
                    blocks.insert(i as u64, vec![]);
                }
                Cmd::At { block } => here = *block,
                Cmd::Incoming { phi, val, from } => incoming.entry(*phi).or_default().push((*from, *val)),
                _ => blocks.get_mut(&here).expect("a block is open").push(i),
            }
        }
        Machine {
            script: &m.script,
            blocks,
            entries,
            incoming,
            mem: HashMap::new(),
            next: 0x1000,
            objects: HashMap::new(),
            foreign: vec![],
        }
    }

    fn room(&mut self, bytes: u64) -> u64 {
        let at = self.next;
        self.next += bytes + 64;
        at
    }

    fn read(&self, at: u64, count: u64) -> u64 {
        (0..count).fold(0, |w, i| w | (*self.mem.get(&(at + i)).unwrap_or(&0) as u64) << (8 * i))
    }

    fn write(&mut self, at: u64, count: u64, w: u64) {
        for i in 0..count {
            self.mem.insert(at + i, (w >> (8 * i)) as u8);
        }
    }

    fn load(&self, ty: Ty, at: u64) -> V {
        match ty {
            Ty::VecF32(k) => V::Lanes((0..k as u64).map(|i| self.read(at + 4 * i, 4)).collect()),
            Ty::VecF64(k) => V::Lanes((0..k as u64).map(|i| self.read(at + 8 * i, 8)).collect()),
            _ => V::W(self.read(at, bytes_of(ty))),
        }
    }

    fn store(&mut self, ty: Ty, at: u64, val: V) {
        match ty {
            Ty::VecF32(_) => {
                for (i, w) in val.lanes().into_iter().enumerate() {
                    self.write(at + 4 * i as u64, 4, w);
                }
            }
            Ty::VecF64(_) => {
                for (i, w) in val.lanes().into_iter().enumerate() {
                    self.write(at + 8 * i as u64, 8, w);
                }
            }
            _ => self.write(at, bytes_of(ty), val.w()),
        }
    }

    fn value(&self, frame: &Frame, x: Val) -> V {
        match x.id {
            Id::Const(w) => V::W(w),
            Id::Undef => match x.ty {
                Ty::VecF32(k) | Ty::VecF64(k) | Ty::Mask(k) => V::Lanes(vec![0; k as usize]),
                _ => panic!("only vectors can be undefined"),
            },
            Id::FloatZero => V::W(0),
            Id::Reg(i) => frame.regs.get(&i).unwrap_or_else(|| panic!("register {i} is set")).clone(),
            Id::Param { func, index } => {
                assert_eq!(func, frame.func, "a parameter belongs to the running function");
                frame.params[index as usize].clone()
            }
            Id::Func(at) => V::W(CODE | at),
        }
    }

    fn scalars(&self, obj: u64) -> u64 {
        obj + 8 * self.objects[&obj]
    }

    fn runtime(&mut self, name: &str, a: Vec<V>) -> Step {
        let w = |i: usize| a[i].w();
        let checked = |exact: i128| V::Pair(exact as u64, exact < i64::MIN as i128 || exact > i64::MAX as i128);
        let signed = |i: usize| a[i].w() as i64 as i128;
        Ok(match name {
            "llvm.trap" => return Err(Stop::Trap),
            "llvm.sadd.with.overflow.i64" => checked(signed(0) + signed(1)),
            "llvm.ssub.with.overflow.i64" => checked(signed(0) - signed(1)),
            "llvm.smul.with.overflow.i64" => checked(signed(0) * signed(1)),
            "llvm.floor.f64" => V::W(f64::from_bits(w(0)).floor().to_bits()),
            "llvm.round.f64" => V::W(f64::from_bits(w(0)).round().to_bits()),
            "llvm.sqrt.f64" => V::W(f64::from_bits(w(0)).sqrt().to_bits()),
            "llvm.sqrt.f32" => V::W(f32::from_bits(w(0) as u32).sqrt().to_bits() as u64),
            "llvm.fma.f64" => {
                V::W(f64::from_bits(w(0)).mul_add(f64::from_bits(w(1)), f64::from_bits(w(2))).to_bits())
            }
            "llvm.vector.reduce.fadd.v2f64" => {
                let sum = a[1].lanes().iter().fold(f64::from_bits(w(0)), |s, x| s + f64::from_bits(*x));
                V::W(sum.to_bits())
            }
            "llvm.sqrt.v4f32" => V::Lanes(
                a[0].lanes().iter().map(|x| f32::from_bits(*x as u32).sqrt().to_bits() as u64).collect(),
            ),
            "llvm.fma.v4f32" => {
                let (x, y, z) = (a[0].lanes(), a[1].lanes(), a[2].lanes());
                let one = |b: u64| f32::from_bits(b as u32);
                V::Lanes((0..4).map(|i| one(x[i]).mul_add(one(y[i]), one(z[i])).to_bits() as u64).collect())
            }
            "llvm.vector.reduce.fadd.v4f32" | "llvm.vector.reduce.fadd.v8f32" => {
                let sum = a[1]
                    .lanes()
                    .iter()
                    .fold(f32::from_bits(w(0) as u32), |s, x| s + f32::from_bits(*x as u32));
                V::W(sum.to_bits() as u64)
            }
            "locus_alloc" => V::W(self.room(w(0))),
            "locus_gc_alloc" => {
                let at = self.room(8 * (w(0) + w(1)));
                self.objects.insert(at, w(0));
                V::W(at)
            }
            "locus_gc_set_scalar" => {
                let at = self.scalars(w(0)) + 8 * w(1);
                self.write(at, 8, w(2));
                V::W(0)
            }
            "locus_gc_get_scalar" => V::W(self.read(self.scalars(w(0)) + 8 * w(1), 8)),
            "locus_gc_set_ptr" | "locus_gc_set_word" => {
                self.write(w(0) + 8 * w(1), 8, w(2));
                V::W(0)
            }
            "locus_gc_get_ptr" | "locus_gc_get_word" => V::W(self.read(w(0) + 8 * w(1), 8)),
            "locus_gc_scalar_fields_ptr" => V::W(self.scalars(w(0))),
            "locus_gc_len" => V::W(self.read(self.scalars(w(0)), 8)),
            "locus_gc_array_get_scalar_bytes" => {
                V::W(self.read(self.scalars(w(0)) + 8 + w(1) * w(2), w(2)))
            }
            "locus_gc_array_set_scalar_bytes" => {
                let at = self.scalars(w(0)) + 8 + w(1) * w(2);
                self.write(at, w(2), w(3));
                V::W(0)
            }
            "locus_gc_array_get_scalar_cell" => {
                V::W(self.read(self.scalars(w(0)) + 8 + 8 * (w(1) * w(2) + w(3)), 8))
            }
            "locus_gc_array_set_scalar_cell" => {
                let at = self.scalars(w(0)) + 8 + 8 * (w(1) * w(2) + w(3));
                self.write(at, 8, w(4));
                V::W(0)
            }
            "locus_gc_array_get_ptr" => V::W(self.read(w(0) + 8 * w(1), 8)),
            "locus_gc_array_set_ptr" => {
                self.write(w(0) + 8 * w(1), 8, w(2));
                V::W(0)
            }
            "locus_gc_enter" => V::W(0),
            "locus_gc_leave" => V::W(0),
            "locus_gc_leave_with" => V::W(w(1)),
            "locus_gc_root" | "locus_gc_to_ptr" | "locus_gc_from_ptr" => V::W(w(0)),
            "locus_gc_root_set" => V::W(w(1)),
            "locus_write_float" => {
                self.foreign.push((name.to_string(), vec![w(0)]));
                V::W(0)
            }
            other => panic!("the machine does not know {other}"),
        })
    }

    fn call(&mut self, func: u64, params: Vec<V>) -> Step {
        let mut frame = Frame { func, params, regs: HashMap::new() };
        let mut block = self.entries[&func];
        let mut from = block;
        let mut args: Vec<V> = vec![];
        loop {
            let body = self.blocks[&block].clone();
            let mut phis: Vec<(u64, V)> = vec![];
            for i in &body {
                if let Cmd::Phi { .. } = &self.script[*i] {
                    let edges = &self.incoming[&(*i as u64)];
                    let edge = edges.iter().find(|e| e.0 == from).expect("the phi has this edge");
                    phis.push((*i as u64, self.value(&frame, edge.1)));
                }
            }
            for (i, w) in phis {
                frame.regs.insert(i, w);
            }
            let mut to: Option<u64> = None;
            for i in body {
                let at = i as u64;
                let script = self.script;
                let made: Option<V> = match &script[i] {
                    Cmd::Phi { .. } => None,
                    Cmd::Int { op, a, b, .. } => {
                        Some(self.int_op(*op, self.value(&frame, *a), self.value(&frame, *b)))
                    }
                    Cmd::IntTest { pred, a, b, .. } => {
                        let (x, y) = (self.value(&frame, *a).w() as i64, self.value(&frame, *b).w() as i64);
                        Some(V::W(
                            (match pred {
                                IntPred::Eq => x == y,
                                IntPred::Ne => x != y,
                                IntPred::Slt => x < y,
                                IntPred::Sle => x <= y,
                                IntPred::Sgt => x > y,
                                IntPred::Sge => x >= y,
                            }) as u64,
                        ))
                    }
                    Cmd::Float { op, a, b, .. } => {
                        let wide = matches!(a.ty, Ty::F64 | Ty::VecF64(_));
                        Some(match (self.value(&frame, *a), self.value(&frame, *b)) {
                            (V::W(x), V::W(y)) => V::W(float_op(*op, wide, x, y)),
                            (V::Lanes(x), V::Lanes(y)) => V::Lanes(
                                x.iter().zip(&y).map(|(p, q)| float_op(*op, wide, *p, *q)).collect(),
                            ),
                            other => panic!("a float operation on {other:?}"),
                        })
                    }
                    Cmd::FloatTest { pred, a, b, .. } => {
                        let wide = matches!(a.ty, Ty::F64 | Ty::VecF64(_));
                        Some(match (self.value(&frame, *a), self.value(&frame, *b)) {
                            (V::W(x), V::W(y)) => V::W(float_test(*pred, wide, x, y)),
                            (V::Lanes(x), V::Lanes(y)) => V::Lanes(
                                x.iter().zip(&y).map(|(p, q)| float_test(*pred, wide, *p, *q)).collect(),
                            ),
                            other => panic!("a float test on {other:?}"),
                        })
                    }
                    Cmd::Convert { op, a, ty, .. } => {
                        let x = self.value(&frame, *a).w();
                        Some(V::W(convert(*op, x, a.ty, *ty)))
                    }
                    Cmd::Load { ty, ptr, .. } => Some(self.load(*ty, self.value(&frame, *ptr).w())),
                    Cmd::Store { ptr, val, .. } => {
                        let (to, what) = (self.value(&frame, *ptr).w(), self.value(&frame, *val));
                        self.store(val.ty, to, what);
                        None
                    }
                    Cmd::Gep { elem, base, index, .. } => {
                        let (b, k) = (self.value(&frame, *base).w(), self.value(&frame, *index).w());
                        Some(V::W(b.wrapping_add(k.wrapping_mul(bytes_of(*elem)))))
                    }
                    Cmd::Alloca { .. } => Some(V::W(self.room(64))),
                    Cmd::EntryAlloca { .. } => match frame.regs.get(&at) {
                        Some(_) => None,
                        None => Some(V::W(self.room(8))),
                    },
                    Cmd::Extract { vec, lane, .. } => {
                        Some(V::W(self.value(&frame, *vec).lanes()[*lane as usize]))
                    }
                    Cmd::Insert { vec, elem, lane, .. } => {
                        let mut lanes = self.value(&frame, *vec).lanes();
                        lanes[*lane as usize] = self.value(&frame, *elem).w();
                        Some(V::Lanes(lanes))
                    }
                    Cmd::Part { pair, index, .. } => match self.value(&frame, *pair) {
                        V::Pair(x, over) => Some(V::W(if *index == 0 { x } else { over as u64 })),
                        other => panic!("a part of {other:?}"),
                    },
                    Cmd::Select { mask, yes, no, .. } => {
                        let (m, y, x) = (
                            self.value(&frame, *mask).lanes(),
                            self.value(&frame, *yes).lanes(),
                            self.value(&frame, *no).lanes(),
                        );
                        Some(V::Lanes((0..m.len()).map(|k| if m[k] != 0 { y[k] } else { x[k] }).collect()))
                    }
                    Cmd::Memset { dst, byte, count } => {
                        let (d, b, c) = (
                            self.value(&frame, *dst).w(),
                            self.value(&frame, *byte).w(),
                            self.value(&frame, *count).w(),
                        );
                        for k in 0..c {
                            self.write(d + k, 1, b);
                        }
                        None
                    }
                    Cmd::Memmove { dst, src, count } => {
                        let (d, s, c) = (
                            self.value(&frame, *dst).w(),
                            self.value(&frame, *src).w(),
                            self.value(&frame, *count).w(),
                        );
                        let moved: Vec<u64> = (0..c).map(|k| self.read(s + k, 1)).collect();
                        for (k, b) in moved.into_iter().enumerate() {
                            self.write(d + k as u64, 1, b);
                        }
                        None
                    }
                    Cmd::Arg { val } => {
                        args.push(self.value(&frame, *val));
                        None
                    }
                    Cmd::Call { callee: Callee::Known(name), .. } => {
                        let given = std::mem::take(&mut args);
                        Some(self.runtime(name, given)?)
                    }
                    Cmd::Call { callee: Callee::Foreign(name), .. } => {
                        let given: Vec<u64> = std::mem::take(&mut args).iter().map(|x| x.w()).collect();
                        let answer = match name.as_str() {
                            "locus_fp64_add" => {
                                (f64::from_bits(given[0]) + f64::from_bits(given[1])).to_bits()
                            }
                            "locus_fp64_add_i64" => {
                                (f64::from_bits(given[0]) + given[1] as i64 as f64).to_bits()
                            }
                            "locus_fp32_id" => given[0],
                            _ => 0,
                        };
                        self.foreign.push((name.clone(), given));
                        Some(V::W(answer))
                    }
                    Cmd::CallPtr { ptr, .. } => {
                        let given = std::mem::take(&mut args);
                        let code = self.value(&frame, *ptr).w();
                        assert_eq!(code & CODE, CODE, "a call goes to code");
                        Some(self.call(code & !CODE, given)?)
                    }
                    Cmd::Br { to: block } => {
                        to = Some(*block);
                        None
                    }
                    Cmd::CondBr { cond, yes, no } => {
                        to = Some(if self.value(&frame, *cond).w() & 1 != 0 { *yes } else { *no });
                        None
                    }
                    Cmd::Ret { val } => return Ok(self.value(&frame, *val)),
                    Cmd::Unreachable => return Err(Stop::Trap),
                    other => panic!("{other:?} does not run"),
                };
                if let Some(w) = made {
                    frame.regs.insert(at, w);
                }
            }
            from = block;
            block = to.expect("a block ends in a jump");
        }
    }

    fn int_op(&self, op: IntOp, a: V, b: V) -> V {
        let (x, y) = (a.w(), b.w());
        V::W(match op {
            IntOp::Add => x.wrapping_add(y),
            IntOp::Sub => x.wrapping_sub(y),
            IntOp::Mul => x.wrapping_mul(y),
            IntOp::SDiv => (x as i64 / y as i64) as u64,
            IntOp::SRem => (x as i64 % y as i64) as u64,
            IntOp::UDiv => x / y,
            IntOp::URem => x % y,
            IntOp::And => x & y,
            IntOp::Or => x | y,
            IntOp::Xor => x ^ y,
            IntOp::Shl => x << y,
            IntOp::LShr => x >> y,
            IntOp::AShr => ((x as i64) >> y) as u64,
        })
    }

    fn entry(&self) -> u64 {
        self.script
            .iter()
            .position(|c| matches!(c, Cmd::Func { name: FuncName::Main, .. }))
            .expect("a program has an entry") as u64
    }
}

fn convert(op: Conv, x: u64, from: Ty, to: Ty) -> u64 {
    let low = |bytes: u64| if bytes >= 8 { x } else { x & ((1 << (8 * bytes)) - 1) };
    match op {
        Conv::Trunc => match to {
            Ty::I1 => x & 1,
            _ => low(bytes_of(to)),
        },
        Conv::Zext | Conv::IntToPtr | Conv::PtrToInt | Conv::Bits => x,
        Conv::Sext => match from {
            Ty::I32 => x as u32 as i32 as i64 as u64,
            Ty::I16 => x as u16 as i16 as i64 as u64,
            _ => x as u8 as i8 as i64 as u64,
        },
        Conv::SiToFp => (x as i64 as f64).to_bits(),
        Conv::FpToSi => f64::from_bits(x) as i64 as u64,
        Conv::FpTrunc => (f64::from_bits(x) as f32).to_bits() as u64,
        Conv::FpExt => (f32::from_bits(x as u32) as f64).to_bits(),
    }
}

fn ran(ir: &Ir) -> Result<i64, Stop> {
    let m = emit_module(ir, false).unwrap();
    let mut machine = Machine::new(&m);
    let main = machine.entry();
    machine.call(main, vec![]).map(|r| r.w() as i64)
}

fn run(ir: &Ir) -> i64 {
    ran(ir).unwrap()
}

fn run_f64(ir: &Ir) -> f64 {
    f64::from_bits(run(ir) as u64)
}

// ── values and arithmetic ────────────────────────────────────────────────
#[test]
fn jits_an_int_literal() {
    assert_eq!(run(&give(n(42))), 42);
}

#[test]
fn jits_a_let_binding() {
    assert_eq!(run(&set("x", Comp::Atom(n(7)), give(v("x")))), 7);
}

#[test]
fn jits_a_nested_let() {
    // let a = 1 in let b = 99 in b
    let ir = set("a", Comp::Atom(n(1)), set("b", Comp::Atom(n(99)), give(v("b"))));
    assert_eq!(run(&ir), 99);
}

#[test]
fn jits_arithmetic() {
    let ir = set("t", bin(BinOp::Mul, n(2), n(3)), ret(bin(BinOp::Add, n(1), v("t"))));
    assert_eq!(run(&ir), 7, "1 + (2*3)");
    let ir = set("x", Comp::Atom(n(6)), ret(bin(BinOp::Mul, v("x"), n(7))));
    assert_eq!(run(&ir), 42);
    let ir = set("t", bin(BinOp::Sub, n(10), n(3)), ret(bin(BinOp::Sub, v("t"), n(2))));
    assert_eq!(run(&ir), 5);
    assert_eq!(run(&ret(bin(BinOp::AddWrap, n(9223372036854775807), n(1)))), i64::MIN);
    assert_eq!(run(&ret(bin(BinOp::AddChecked, n(40), n(2)))), 42);
    assert_eq!(run(&ret(bin(BinOp::SubChecked, n(50), n(8)))), 42);
    assert_eq!(run(&ret(bin(BinOp::MulChecked, n(6), n(7)))), 42);
    assert_eq!(run(&ret(bin(BinOp::Lt, n(1), n(2)))), 1);
    assert_eq!(run(&ret(bin(BinOp::Lt, n(3), n(2)))), 0);
    assert_eq!(run(&set("n", Comp::Atom(n(7)), ret(bin(BinOp::Eq, v("n"), n(7))))), 1);
}

#[test]
fn checked_integer_arithmetic_emits_overflow_intrinsic() {
    let m = lowered(&ret(bin(BinOp::AddChecked, n(40), n(2))));
    assert!(calls(&m, "llvm.sadd.with.overflow.i64"));
    assert!(calls(&m, "llvm.trap"));
}

#[test]
fn checked_arithmetic_traps_on_overflow_only() {
    let max = i64::MAX;
    assert_eq!(ran(&ret(bin(BinOp::AddChecked, n(max), n(1)))), Err(Stop::Trap));
    assert_eq!(ran(&ret(bin(BinOp::SubChecked, n(i64::MIN), n(1)))), Err(Stop::Trap));
    assert_eq!(ran(&ret(bin(BinOp::MulChecked, n(max), n(2)))), Err(Stop::Trap));
    assert_eq!(ran(&ret(bin(BinOp::AddChecked, n(max), n(0)))), Ok(max));
    assert_eq!(ran(&ret(bin(BinOp::MulChecked, n(max), n(-1)))), Ok(-max));
}

#[test]
fn division_rounds_to_zero_and_traps_without_a_quotient() {
    assert_eq!(run(&ret(bin(BinOp::Div, n(-7), n(2)))), -3);
    assert_eq!(run(&ret(bin(BinOp::Mod, n(-7), n(2)))), -1);
    assert_eq!(run(&ret(bin(BinOp::Div, n(7), n(-2)))), -3);
    assert_eq!(ran(&ret(bin(BinOp::Div, n(1), n(0)))), Err(Stop::Trap));
    assert_eq!(ran(&ret(bin(BinOp::Mod, n(1), n(0)))), Err(Stop::Trap));
    assert_eq!(ran(&ret(bin(BinOp::Div, n(i64::MIN), n(-1)))), Err(Stop::Trap));
    assert_eq!(ran(&ret(bin(BinOp::Mod, n(i64::MIN), n(-1)))), Err(Stop::Trap));
    assert_eq!(ran(&ret(bin(BinOp::Div, n(i64::MIN), n(1)))), Ok(i64::MIN));
}

fn id_of(op: BinOp, a: i64, b: i64) -> Ir {
    // let id = fn x: Int => x in (id a) op (id b)
    bind(
        "id",
        fun(int_ty(), int_ty()),
        cell(),
        lam("x", int_ty(), give(v("x"))),
        set(
            "p",
            app(v("id"), n(a)),
            set("q", app(v("id"), n(b)), ret(bin(op, v("p"), v("q")))),
        ),
    )
}

#[test]
fn integer_division_emits_zero_and_overflow_trap() {
    let ir = id_of(BinOp::Div, 6, 3);
    let m = lowered(&ir);
    assert!(ints_with(&m, IntOp::SDiv), "division should lower to sdiv");
    assert!(calls(&m, "llvm.trap"));
    assert!(has_label(&m, "div.zero") && has_label(&m, "div.overflow"));
    assert_eq!(run(&ir), 2);
}

#[test]
fn integer_remainder_emits_zero_and_overflow_trap() {
    let ir = id_of(BinOp::Mod, 7, 3);
    let m = lowered(&ir);
    assert!(ints_with(&m, IntOp::SRem), "remainder should lower to srem");
    assert!(calls(&m, "llvm.trap"));
    assert!(has_label(&m, "rem.zero") && has_label(&m, "rem.overflow"));
    assert_eq!(run(&ir), 1);
}

#[test]
fn bitwise_operations_work_on_all_bits() {
    assert_eq!(run(&ret(bin(BinOp::And, n(0b1100), n(0b1010)))), 0b1000);
    assert_eq!(run(&ret(bin(BinOp::Or, n(0b1100), n(0b1010)))), 0b1110);
    assert_eq!(run(&ret(bin(BinOp::Xor, n(0b1100), n(0b1010)))), 0b0110);
    assert_eq!(run(&ret(bin(BinOp::Shl, n(3), n(4)))), 48);
    assert_eq!(run(&ret(bin(BinOp::Shr, n(-16), n(2)))), -4);
}

#[test]
fn comparisons_are_signed() {
    let less = |op: BinOp| run(&ret(bin(op, n(-1), n(1))));
    assert_eq!(less(BinOp::Lt), 1);
    assert_eq!(less(BinOp::Le), 1);
    assert_eq!(less(BinOp::Gt), 0);
    assert_eq!(less(BinOp::Ge), 0);
    assert_eq!(less(BinOp::Ne), 1);
}

#[test]
fn jits_float_arithmetic_as_raw_scalar_bits() {
    assert_eq!(run_f64(&ret(Comp::FloatBin(BinOp::Add, f(1.5), f(2.25)))), 3.75);
    assert_eq!(run_f64(&ret(Comp::FloatBin(BinOp::Div, f(3.0), f(2.0)))), 1.5);
    let ir = bind(
        "x",
        float(),
        cell(),
        Comp::Atom(f(4.0)),
        bind(
            "y",
            float(),
            cell(),
            Comp::Atom(f(0.5)),
            ret(Comp::FloatBin(BinOp::Mul, v("x"), v("y"))),
        ),
    );
    assert_eq!(run_f64(&ir), 2.0);
}

#[test]
fn numeric_conversions_round_as_they_say() {
    assert_eq!(run_f64(&ret(Comp::Cast(CastOp::ToFloat, n(-3)))), -3.0);
    assert_eq!(run(&ret(Comp::Cast(CastOp::Floor, f(-2.5)))), -3);
    assert_eq!(run(&ret(Comp::Cast(CastOp::Round, f(2.5)))), 3);
    assert_eq!(run(&bind("s", float32(), packed_float(), Comp::Cast(CastOp::ToFloat32, f(2.0)), rounded(v("s")))), 2);
}

#[test]
fn a_tagged_word_is_untagged_to_itself() {
    for x in [0i64, 1, -1, (1 << 61) - 1, -(1 << 61)] {
        let ir = set("t", Comp::Tag(n(x)), ret(Comp::Untag(v("t"))));
        assert_eq!(ran(&ir), Ok(x));
        assert_eq!(ran(&ret(Comp::Tag(n(x)))), Ok(x << 2));
    }
    for x in [1i64 << 61, -(1 << 61) - 1, i64::MAX, i64::MIN] {
        assert_eq!(ran(&ret(Comp::Tag(n(x)))), Err(Stop::Trap));
    }
}

// ── control ──────────────────────────────────────────────────────────────
#[test]
fn a_conditional_runs_one_branch() {
    assert_eq!(run(&ret(branch(Atom::Bool(true), give(n(1)), give(n(2))))), 1);
    assert_eq!(run(&ret(branch(Atom::Bool(false), give(n(1)), give(n(2))))), 2);
    let trap = ret(bin(BinOp::Div, n(1), n(0)));
    assert_eq!(ran(&ret(branch(Atom::Bool(true), give(n(1)), trap))), Ok(1));
}

fn counting() -> Ir {
    // loop i = 0, acc = 0 while i < 10 do i + 1, acc + i else acc
    ret(repeat(
        vec![accumulator("i", n(0)), accumulator("acc", n(0))],
        ret(bin(BinOp::Lt, v("i"), n(10))),
        vec![ret(bin(BinOp::Add, v("i"), n(1))), ret(bin(BinOp::Add, v("acc"), v("i")))],
        give(v("acc")),
    ))
}

#[test]
fn accumulator_loop_emits_llvm_phi_blocks() {
    let ir = counting();
    let m = lowered(&ir);
    assert!(has_block(&m, "loop.body"));
    assert!(m.script.iter().any(|c| matches!(c, Cmd::Phi { ty: Ty::I64, .. })));
    assert_eq!(lifted(&m), 0, "structured loops should not lower via lifted recursion");
    assert_eq!(run(&ir), 45);
}

#[test]
fn accumulators_step_together() {
    // loop a = 0, b = 1, i = 0 while i < 10 do b, a + b, i + 1 else a
    let ir = ret(repeat(
        vec![accumulator("a", n(0)), accumulator("b", n(1)), accumulator("i", n(0))],
        ret(bin(BinOp::Lt, v("i"), n(10))),
        vec![
            give(v("b")),
            ret(bin(BinOp::Add, v("a"), v("b"))),
            ret(bin(BinOp::Add, v("i"), n(1))),
        ],
        give(v("a")),
    ));
    assert_eq!(run(&ir), 55);
}

fn greatest_divisor(a: i64, b: i64) -> Ir {
    // loop a, b while b != 0 do b, a mod b else a
    ret(repeat(
        vec![accumulator("a", n(a)), accumulator("b", n(b))],
        ret(bin(BinOp::Ne, v("b"), n(0))),
        vec![give(v("b")), ret(bin(BinOp::Mod, v("a"), v("b")))],
        give(v("a")),
    ))
}

#[test]
fn a_program_of_integers_returns_what_it_means() {
    assert_eq!(run(&greatest_divisor(48, 18)), 6);
    assert_eq!(run(&greatest_divisor(18, 48)), 6);
    assert_eq!(run(&greatest_divisor(5, 0)), 5);
    // loop i = 0, sum = 0 while i < 4 do i + 1, (loop j = i, s = sum while j > 0 ..) else sum
    let inner = ret(repeat(
        vec![accumulator("j", v("i")), accumulator("s", v("sum"))],
        ret(bin(BinOp::Gt, v("j"), n(0))),
        vec![ret(bin(BinOp::Sub, v("j"), n(1))), ret(bin(BinOp::Add, v("s"), v("j")))],
        ret(branch(v("i"), give(v("s")), give(n(100)))),
    ));
    let nested = ret(repeat(
        vec![accumulator("i", n(0)), accumulator("sum", n(0))],
        ret(bin(BinOp::Lt, v("i"), n(4))),
        vec![ret(bin(BinOp::Add, v("i"), n(1))), inner],
        give(v("sum")),
    ));
    assert_eq!(run(&nested), 100 + 1 + 3 + 6);
}

#[test]
fn a_loop_that_comes_to_a_trap_traps() {
    // loop i = 3 while 1 do 6 / i - 1 .. : 3, 1, 5, 0, then a division by zero
    let step = set("q", bin(BinOp::Div, n(6), v("i")), ret(bin(BinOp::Sub, v("q"), n(1))));
    let ir = ret(repeat(vec![accumulator("i", n(3))], give(n(1)), vec![step], give(v("i"))));
    assert_eq!(ran(&ir), Err(Stop::Trap));
}

fn summing(start: Atom) -> Ir {
    repeat_over(start, ret_sum())
}

fn ret_sum() -> Ir {
    set("e", get("a", v("i")), ret(bin(BinOp::Add, v("acc"), v("e"))))
}

fn repeat_over(start: Atom, step: Ir) -> Ir {
    ret(repeat(
        vec![accumulator("i", start), accumulator("acc", n(0))],
        below_len("a"),
        vec![ret(bin(BinOp::Add, v("i"), n(1))), step],
        give(v("acc")),
    ))
}

#[test]
fn accumulator_loop_uses_raw_scalar_array_loads() {
    let ir = with_array("a", &[10, 20, 30, 40], summing(n(0)));
    let m = lowered(&ir);
    assert!(calls(&m, "locus_gc_scalar_fields_ptr"));
    assert!(!calls(&m, "locus_gc_len"), "loop len should use the borrowed scalar-field base");
    assert!(!calls(&m, "locus_gc_array_get_scalar_bytes"));
    assert_eq!(run(&ir), 100);
}

#[test]
fn array_stdlib_sum_uses_raw_scalar_array_loads() {
    // let array_sum_int = fn a => loop … in array_sum_int ([10, 20, 30, 40])
    let ir = with_array(
        "xs",
        &[10, 20, 30, 40],
        bind(
            "array_sum_int",
            fun(array(), int_ty()),
            handle(),
            lam_of("a", array(), handle(), int_ty(), summing(n(0))),
            ret(Comp::App {
                fun: v("array_sum_int"),
                arg: v("xs"),
                arg_ty: array(),
                ret_ty: int_ty(),
                ret_layout: cell(),
            }),
        ),
    );
    let m = lowered(&ir);
    assert!(calls(&m, "locus_gc_scalar_fields_ptr"));
    let sums: Vec<u64> = calls_of(&m, "locus_gc_scalar_fields_ptr")
        .into_iter()
        .filter_map(|i| function_of(&m, i))
        .filter(|f| {
            titled(&m, "loop.acc").iter().any(|phi| {
                matches!(&m.script[*phi as usize], Cmd::Phi { ty: Ty::I64, .. })
                    && function_of(&m, *phi as usize) == Some(*f)
                    && m.script.iter().enumerate().any(|(i, c)| {
                        matches!(c, Cmd::Int { op: IntOp::Add, a, .. } if a.id == Id::Reg(*phi))
                            && function_of(&m, i) == Some(*f)
                    })
            })
        })
        .collect();
    assert_eq!(sums.len(), 1, "one function sums in `loop.acc` over the borrowed fields");
    assert!(!calls(&m, "locus_gc_array_get_scalar_bytes"));
    assert!(!has_block(&m, "array.index.trap"));
    assert_eq!(run(&ir), 100);
}

#[test]
fn values_are_called_after_their_variables() {
    let m = lowered(&with_array("a", &[10, 20], summing(n(0))));
    assert_eq!(titled(&m, "loop.i").len(), 1);
    assert_eq!(titled(&m, "loop.acc").len(), 1);
    assert_eq!(titled(&m, "a.len").len(), 1);
    let m = lowered(&set(
        "u",
        Comp::SlotInit("s".to_string(), n(4)),
        ret(Comp::SlotLoad("s".to_string())),
    ));
    let slot = titled(&m, "mut.s");
    assert!(matches!(&m.script[slot[0] as usize], Cmd::EntryAlloca { .. }));
    let load = titled(&m, "s.load");
    assert!(matches!(&m.script[load[0] as usize], Cmd::Load { ptr, .. } if ptr.id == Id::Reg(slot[0])));
    assert_eq!((slot.len(), load.len()), (1, 1));
}

#[test]
fn array_stdlib_copy_range_uses_cached_scalar_arrays() {
    // copy src[1..4] to dst[0..3], then sum dst
    let step = set(
        "from",
        bin(BinOp::Add, v("i"), n(1)),
        set(
            "e",
            get("src", v("from")),
            set("w", put("a", v("i"), v("e")), ret(bin(BinOp::Add, v("i"), n(1)))),
        ),
    );
    let copy = repeat(
        vec![accumulator("i", n(0))],
        ret(bin(BinOp::Lt, v("i"), n(3))),
        vec![step],
        give(Atom::Unit),
    );
    let ir = with_array(
        "src",
        &[10, 20, 30, 40],
        with_array("a", &[0, 0, 0, 0], set("u", copy, summing(n(0)))),
    );
    let m = lowered(&ir);
    assert!(calls(&m, "locus_gc_scalar_fields_ptr"));
    assert!(!calls(&m, "locus_gc_array_get_scalar_bytes"));
    assert!(has_block(&m, "array.index.trap"), "offset copies are still bounds-checked");
    assert_eq!(run(&ir), 90);
}

#[test]
fn guarded_accumulator_loop_elides_redundant_array_bounds_check() {
    let m = lowered(&with_array("a", &[10, 20, 30, 40], summing(n(0))));
    assert!(!has_block(&m, "array.index.trap"));
    assert!(!calls(&m, "llvm.trap"));
}

#[test]
fn unproved_accumulator_loop_keeps_array_bounds_check() {
    let ir = with_array(
        "a",
        &[10, 20, 30, 40],
        set("start", bin(BinOp::Sub, n(0), n(1)), summing(v("start"))),
    );
    assert!(has_block(&lowered(&ir), "array.index.trap"));
    assert_eq!(ran(&ir), Err(Stop::Trap));
}

#[test]
fn shadowed_loop_index_keeps_array_bounds_check() {
    let step = set("i", bin(BinOp::Sub, n(0), n(1)), ret_sum());
    let ir = with_array("a", &[10, 20, 30, 40], repeat_over(n(0), step));
    assert!(has_block(&lowered(&ir), "array.index.trap"));
    assert_eq!(ran(&ir), Err(Stop::Trap));
}

/// `loop i = 0, acc = 0 while guard do (step, acc + a[i]) else acc`
fn stepping(guard: Ir, step: Comp) -> Ir {
    ret(repeat(
        vec![accumulator("i", n(0)), accumulator("acc", n(0))],
        guard,
        vec![ret(step), ret_sum()],
        give(v("acc")),
    ))
}

#[test]
fn a_step_that_may_wrap_keeps_the_bounds_check() {
    let far = with_array(
        "a",
        &[10, 20, 30, 40],
        stepping(below_len("a"), bin(BinOp::Add, v("i"), n(i64::MAX))),
    );
    assert!(has_block(&lowered(&far), "array.index.trap"));
    assert_eq!(run(&far), 10);
    // A step that cannot wrap needs no check.
    let two = with_array("a", &[10, 20, 30, 40], stepping(below_len("a"), bin(BinOp::Add, v("i"), n(2))));
    assert!(!has_block(&lowered(&two), "array.index.trap"));
    assert_eq!(run(&two), 40);
    let back = with_array("a", &[10, 20, 30, 40], stepping(below_len("a"), bin(BinOp::Add, v("i"), n(-1))));
    assert!(has_block(&lowered(&back), "array.index.trap"));
    assert_eq!(ran(&back), Err(Stop::Trap));
}

#[test]
fn an_array_bound_again_in_a_loop_is_another_array() {
    // let a = [1, 2] in loop i = 0, acc = 0 while i < 2
    // do i + 1, (let b = a[i] in let a = [7, 8] in let x = a[i] in (acc + b) + x) else acc
    let inner = set(
        "x",
        get("a", v("i")),
        set("t", bin(BinOp::Add, v("acc"), v("b")), ret(bin(BinOp::Add, v("t"), v("x")))),
    );
    let again = set("b", get("a", v("i")), with_array("a", &[7, 8], inner));
    let ir = with_array(
        "a",
        &[1, 2],
        ret(repeat(
            vec![accumulator("i", n(0)), accumulator("acc", n(0))],
            ret(bin(BinOp::Lt, v("i"), n(2))),
            vec![ret(bin(BinOp::Add, v("i"), n(1))), again],
            give(v("acc")),
        )),
    );
    assert_eq!(run(&ir), 1 + 7 + 2 + 8);
}

#[test]
fn an_array_named_again_in_a_loop_is_not_borrowed() {
    // let a = [1, 2] in let c = [7, 8] in loop i = 0, acc = 0 while i < 2
    // do i + 1, (let a = c in let d = a in let x = d[i] in let y = a[i] in (acc + x) + y) else acc
    let step = bind(
        "a",
        array(),
        handle(),
        Comp::Atom(v("c")),
        bind(
            "d",
            array(),
            handle(),
            Comp::Atom(v("a")),
            set(
                "x",
                get("d", v("i")),
                set(
                    "y",
                    get("a", v("i")),
                    set("t", bin(BinOp::Add, v("acc"), v("x")), ret(bin(BinOp::Add, v("t"), v("y")))),
                ),
            ),
        ),
    );
    let ir = with_array(
        "a",
        &[1, 2],
        with_array(
            "c",
            &[7, 8],
            ret(repeat(
                vec![accumulator("i", n(0)), accumulator("acc", n(0))],
                ret(bin(BinOp::Lt, v("i"), n(2))),
                vec![ret(bin(BinOp::Add, v("i"), n(1))), step],
                give(v("acc")),
            )),
        ),
    );
    assert_eq!(run(&ir), 7 + 7 + 8 + 8);
}

#[test]
fn an_element_is_written_and_read_by_the_name_of_its_array() {
    // let a = [1, 2, 3] in let b = [4, 5, 6] in loop i = 0, acc = 0 while i < len a
    // do i + 1, (let _ = a[i] <- i * 10 in let x = a[i] in let y = b[i] in (acc + x) + y) else acc
    let step = set(
        "t",
        bin(BinOp::Mul, v("i"), n(10)),
        set(
            "w",
            put("a", v("i"), v("t")),
            set(
                "x",
                get("a", v("i")),
                set(
                    "y",
                    get("b", v("i")),
                    set("s", bin(BinOp::Add, v("acc"), v("x")), ret(bin(BinOp::Add, v("s"), v("y")))),
                ),
            ),
        ),
    );
    let ir = with_array(
        "a",
        &[1, 2, 3],
        with_array(
            "b",
            &[4, 5, 6],
            ret(repeat(
                vec![accumulator("i", n(0)), accumulator("acc", n(0))],
                below_len("a"),
                vec![ret(bin(BinOp::Add, v("i"), n(1))), step],
                give(v("acc")),
            )),
        ),
    );
    assert!(calls(&lowered(&ir), "locus_gc_scalar_fields_ptr"));
    assert_eq!(run(&ir), 0 + 10 + 20 + 4 + 5 + 6);
}

#[test]
fn a_guard_that_binds_a_name_again_keeps_the_bounds_check() {
    // let limit = len a in let limit = limit + 100 in i < limit
    let longer = set(
        "limit",
        Comp::Len(v("a")),
        set("limit", bin(BinOp::Add, v("limit"), n(100)), ret(bin(BinOp::Lt, v("i"), v("limit")))),
    );
    let ir = with_array("a", &[10, 20], stepping(longer, bin(BinOp::Add, v("i"), n(1))));
    assert!(has_block(&lowered(&ir), "array.index.trap"));
    assert_eq!(ran(&ir), Err(Stop::Trap));
    // let limit = len a in let i = i - 2 in i < limit
    let lower = set(
        "limit",
        Comp::Len(v("a")),
        set("i", bin(BinOp::Sub, v("i"), n(2)), ret(bin(BinOp::Lt, v("i"), v("limit")))),
    );
    let ir = with_array("a", &[10, 20], stepping(lower, bin(BinOp::Add, v("i"), n(1))));
    assert!(has_block(&lowered(&ir), "array.index.trap"));
    assert_eq!(ran(&ir), Err(Stop::Trap));
}

fn storing(start: Atom, value: Comp) -> Comp {
    // loop i = start while i < len a do (let _ = a[i] <- value in i + 1) else ()
    repeat(
        vec![accumulator("i", start)],
        below_len("a"),
        vec![set(
            "x",
            value,
            set("w", put("a", v("i"), v("x")), ret(bin(BinOp::Add, v("i"), n(1)))),
        )],
        give(Atom::Unit),
    )
}

#[test]
fn accumulator_loop_uses_raw_scalar_array_stores() {
    let ir = with_array("a", &[0, 0, 0, 0], ret(storing(n(0), bin(BinOp::Mul, v("i"), n(10)))));
    let m = lowered(&ir);
    assert!(calls(&m, "locus_gc_scalar_fields_ptr"));
    assert!(has_label(&m, "array.elem.ptr"));
    assert!(!has_block(&m, "array.index.trap"));
}

#[test]
fn unproved_accumulator_loop_store_keeps_array_bounds_check() {
    let ir = with_array(
        "a",
        &[0, 0, 0, 0],
        set("start", bin(BinOp::Sub, n(0), n(1)), ret(storing(v("start"), Comp::Atom(v("i"))))),
    );
    assert!(has_block(&lowered(&ir), "array.index.trap"));
    assert_eq!(ran(&ir), Err(Stop::Trap));
}

#[test]
fn a_loop_that_stores_is_read_back() {
    let ir = with_array(
        "a",
        &[0, 0, 0, 0],
        set("u", storing(n(0), bin(BinOp::Mul, v("i"), n(10))), ret(get("a", n(3)))),
    );
    assert_eq!(run(&ir), 30);
}

fn every_other_element_set(layout: ValueLayout, read: i64) -> Ir {
    // let a = [0, …, 8] in loop i = 1 while i < len a do a[i] <- -1; i + 2 else (); a[read]
    let store = Comp::ArraySet { arr: v("a"), idx: v("i"), val: n(-1), elem_layout: layout };
    let write = repeat(
        vec![accumulator("i", n(1))],
        below_len("a"),
        vec![set("w", store, ret(bin(BinOp::Add, v("i"), n(2))))],
        give(Atom::Unit),
    );
    let load = Comp::ArrayGet { arr: v("a"), idx: n(read), elem_layout: layout, elem_ty: int_ty() };
    Ir::Let {
        name: "a".to_string(),
        ty: array(),
        layout: handle(),
        row: gc(),
        comp: Rc::new(Comp::ArrayLit { elems: (0..9).map(n).collect(), elem_layout: layout }),
        rest: Rc::new(set("u", write, ret(load))),
    }
}

#[test]
fn packed_elements_do_not_touch_their_neighbours() {
    for width in [1usize, 2, 4, 8] {
        let top = if width == 8 { -1 } else { (1i64 << (8 * width)) - 1 };
        for i in 0..9 {
            let ir = every_other_element_set(ValueLayout::scalar_bytes(width, width), i);
            let want = if i % 2 == 1 { top } else { i };
            assert_eq!(run(&ir), want, "element {i} of width {width}");
        }
    }
}

// ── functions ────────────────────────────────────────────────────────────
#[test]
fn a_closure_keeps_what_it_captured() {
    // let a = 5 in let f = fn x => x + a in let a = 100 in f 2
    let ir = set(
        "a",
        Comp::Atom(n(5)),
        bind(
            "f",
            fun(int_ty(), int_ty()),
            cell(),
            lam("x", int_ty(), ret(bin(BinOp::Add, v("x"), v("a")))),
            set("a", Comp::Atom(n(100)), ret(app(v("f"), n(2)))),
        ),
    );
    assert_eq!(run(&ir), 7);
}

fn adder() -> Comp {
    // fn x => fn y => x + y
    lam(
        "x",
        fun(int_ty(), int_ty()),
        ret(lam("y", int_ty(), ret(bin(BinOp::Add, v("x"), v("y"))))),
    )
}

#[test]
fn a_partial_application_is_a_function() {
    let binary = fun(int_ty(), fun(int_ty(), int_ty()));
    let ir = bind(
        "add",
        binary,
        cell(),
        adder(),
        bind(
            "g",
            fun(int_ty(), int_ty()),
            cell(),
            app_to(v("add"), n(10), fun(int_ty(), int_ty()), cell()),
            ret(app(v("g"), n(3))),
        ),
    );
    assert_eq!(run(&ir), 13);
}

#[test]
fn a_saturated_call_is_that_of_the_curried_function() {
    let binary = fun(int_ty(), fun(int_ty(), int_ty()));
    let call = Comp::Call {
        fun: v("add"),
        args: vec![CallArg { value: n(30), ty: int_ty() }, CallArg { value: n(12), ty: int_ty() }],
        fun_ty: fun(int_ty(), fun(int_ty(), int_ty())),
        ret_ty: int_ty(),
    };
    assert_eq!(run(&bind("add", binary, cell(), adder(), ret(call))), 42);
}

fn fib() -> Comp {
    // fn n => if n < 2 then n else fib (n - 1) + fib (n - 2)
    lam(
        "n",
        int_ty(),
        set(
            "small",
            bin(BinOp::Lt, v("n"), n(2)),
            ret(branch(
                v("small"),
                give(v("n")),
                set(
                    "p",
                    bin(BinOp::Sub, v("n"), n(1)),
                    set(
                        "a",
                        app(v("fib"), v("p")),
                        set(
                            "q",
                            bin(BinOp::Sub, v("n"), n(2)),
                            set("b", app(v("fib"), v("q")), ret(bin(BinOp::Add, v("a"), v("b")))),
                        ),
                    ),
                ),
            )),
        ),
    )
}

#[test]
fn a_function_can_call_itself() {
    let ir = bind("fib", fun(int_ty(), int_ty()), cell(), fib(), ret(app(v("fib"), n(10))));
    assert_eq!(run(&ir), 55);
}

fn countdown(from: i64) -> Ir {
    // let rec go = fn n => if n < 1 then 7 else go (n - 1) in go from
    let body = set(
        "done",
        bin(BinOp::Lt, v("n"), n(1)),
        ret(branch(
            v("done"),
            give(n(7)),
            set("m", bin(BinOp::Sub, v("n"), n(1)), ret(app(v("go"), v("m")))),
        )),
    );
    bind("go", fun(int_ty(), int_ty()), cell(), lam("n", int_ty(), body), ret(app(v("go"), n(from))))
}

#[test]
fn jits_direct_self_tail_recursion_without_stack_growth() {
    assert_eq!(run(&countdown(1000000)), 7);
    let m = lowered(&countdown(5));
    assert!(has_block(&m, "tail.loop"));
    let head = block_at(&m, "tail.loop");
    assert!(m.script.iter().any(|c| matches!(c, Cmd::Br { to } if *to == head)));
}

#[test]
fn a_call_of_another_function_of_its_name_is_no_loop() {
    // let rec go = fn n => if n < 1 then 5 else (let go = fn k => k * 100 in go n) in go 3
    let other = lam("k", int_ty(), ret(bin(BinOp::Mul, v("k"), n(100))));
    let body = set(
        "done",
        bin(BinOp::Lt, v("n"), n(1)),
        ret(branch(
            v("done"),
            ret(app(v("go"), v("n"))),
            bind("go", fun(int_ty(), int_ty()), cell(), other, ret(app(v("go"), v("n")))),
        )),
    );
    let ir = bind("go", fun(int_ty(), int_ty()), cell(), lam("n", int_ty(), body), ret(app(v("go"), n(3))));
    assert_eq!(run(&ir), 300);
}

#[test]
fn jits_functions_and_closures() {
    let unary = || fun(int_ty(), int_ty());
    let id = bind("id", unary(), cell(), lam("x", int_ty(), give(v("x"))), ret(app(v("id"), n(5))));
    assert_eq!(run(&id), 5);
    let square = lam("x", int_ty(), ret(bin(BinOp::Mul, v("x"), v("x"))));
    assert_eq!(run(&bind("sq", unary(), cell(), square, ret(app(v("sq"), n(9))))), 81);
    let addy = lam("x", int_ty(), ret(bin(BinOp::Add, v("x"), v("y"))));
    let captured = set(
        "y",
        Comp::Atom(n(10)),
        bind("addy", unary(), cell(), addy, ret(app(v("addy"), n(5)))),
    );
    assert_eq!(run(&captured), 15);
    // composition: twice closes over inc
    let inc = lam("x", int_ty(), ret(bin(BinOp::Add, v("x"), n(1))));
    let twice = lam("n", int_ty(), set("once", app(v("inc"), v("n")), ret(app(v("inc"), v("once")))));
    let composed = bind(
        "inc",
        unary(),
        cell(),
        inc,
        bind("twice", unary(), cell(), twice, ret(app(v("twice"), n(40)))),
    );
    assert_eq!(run(&composed), 42);
}

#[test]
fn a_function_is_passed_to_a_function() {
    // let apply = fn f => fn x => f (f x) in let k = 3 in apply (fn y => y * k) 5
    let unary = || fun(int_ty(), int_ty());
    let binary = || fun(unary(), unary());
    let rest = |last: Ir| {
        bind(
            "apply",
            binary(),
            cell(),
            lam_of(
                "f",
                unary(),
                cell(),
                unary(),
                ret(lam("x", int_ty(), set("once", app(v("f"), v("x")), ret(app(v("f"), v("once")))))),
            ),
            set(
                "k",
                Comp::Atom(n(3)),
                bind("g", unary(), cell(), lam("y", int_ty(), ret(bin(BinOp::Mul, v("y"), v("k")))), last),
            ),
        )
    };
    let at_once = rest(ret(all_at_once(binary(), "apply", &[v("g"), n(5)])));
    assert_eq!(run(&at_once), 45);
    let half = app_to(v("apply"), v("g"), unary(), cell());
    let one_by_one = rest(bind("h", unary(), cell(), half, ret(app(v("h"), n(5)))));
    assert_eq!(run(&one_by_one), 45);
}

#[test]
fn jits_recursion() {
    // let rec fact = fn n => if n < 1 then 1 else n * fact (n - 1) in fact 5
    let again = set(
        "m",
        bin(BinOp::Sub, v("n"), n(1)),
        set("r", app(v("fact"), v("m")), ret(bin(BinOp::Mul, v("n"), v("r")))),
    );
    let body = set("done", bin(BinOp::Lt, v("n"), n(1)), ret(branch(v("done"), give(n(1)), again)));
    let fact = lam("n", int_ty(), body);
    let ir = bind("fact", fun(int_ty(), int_ty()), cell(), fact, ret(app(v("fact"), n(5))));
    assert_eq!(run(&ir), 120);
    let ir = bind("fib", fun(int_ty(), int_ty()), cell(), fib(), ret(app(v("fib"), n(10))));
    assert_eq!(run(&ir), 55);
}

fn all_at_once(fun_ty: Rc<Type>, name: &str, args: &[Atom]) -> Comp {
    let args = args.iter().map(|a| CallArg { value: a.copy(), ty: int_ty() }).collect();
    Comp::Call { fun: v(name), args, fun_ty, ret_ty: int_ty() }
}

/// `let step = by in let rec up = fn k => fn acc => if k < 1 then acc else
/// up (k - 1) (acc + step * k) in rest`
fn summing_up(by: i64, rest: Ir) -> Ir {
    let binary = || fun(int_ty(), fun(int_ty(), int_ty()));
    let again = set(
        "j",
        bin(BinOp::Sub, v("k"), n(1)),
        set(
            "p",
            bin(BinOp::Mul, v("step"), v("k")),
            set("q", bin(BinOp::Add, v("acc"), v("p")), ret(all_at_once(binary(), "up", &[v("j"), v("q")]))),
        ),
    );
    let body = set("done", bin(BinOp::Lt, v("k"), n(1)), ret(branch(v("done"), give(v("acc")), again)));
    let inner = lam_of("acc", int_ty(), cell(), int_ty(), body);
    let outer = lam_of("k", int_ty(), cell(), fun(int_ty(), int_ty()), ret(inner));
    set("step", Comp::Atom(n(by)), bind("up", binary(), cell(), outer, rest))
}

#[test]
fn an_uncurried_loop_gives_what_the_recursion_does() {
    let binary = fun(int_ty(), fun(int_ty(), int_ty()));
    let ir = summing_up(3, ret(all_at_once(binary, "up", &[n(100), n(7)])));
    assert!(has_block(&lowered(&ir), "tail.loop") && has_block(&lowered(&ir), "call.fast"));
    assert_eq!(run(&ir), 3 * 5050 + 7);
}

#[test]
fn arguments_one_by_one_give_what_they_give_at_once() {
    let half = app_to(v("up"), n(10), fun(int_ty(), int_ty()), cell());
    let ir = summing_up(2, bind("half", fun(int_ty(), int_ty()), cell(), half, ret(app(v("half"), n(5)))));
    assert_eq!(run(&ir), 2 * 55 + 5);
}

/// `let k = 100 in let mix = fn a => fn b => fn c => (k + a * 10) + b * c in rest`
fn mixing(rest: Ir) -> Ir {
    let one = fun(int_ty(), int_ty());
    let two = fun(int_ty(), one.clone());
    let body = set(
        "t",
        bin(BinOp::Mul, v("a"), n(10)),
        set(
            "u",
            bin(BinOp::Add, v("k"), v("t")),
            set("w", bin(BinOp::Mul, v("b"), v("c")), ret(bin(BinOp::Add, v("u"), v("w")))),
        ),
    );
    let inner = lam_of("c", int_ty(), cell(), int_ty(), body);
    let middle = lam_of("b", int_ty(), cell(), one, ret(inner));
    let outer = lam_of("a", int_ty(), cell(), two.clone(), ret(middle));
    set("k", Comp::Atom(n(100)), bind("mix", fun(int_ty(), two), cell(), outer, rest))
}

#[test]
fn an_uncurried_entry_comes_to_what_the_curried_chain_does() {
    let one = || fun(int_ty(), int_ty());
    let three = fun(int_ty(), fun(int_ty(), one()));
    let at_once = mixing(ret(all_at_once(three, "mix", &[n(3), n(4), n(5)])));
    let m = lowered(&at_once);
    assert!(m.script.iter().any(|c| matches!(c, Cmd::Func { name: FuncName::Fast(_), .. })));
    assert_eq!(run(&at_once), 150);
    let step = app_to(v("mix"), n(3), fun(int_ty(), one()), cell());
    let next = app_to(v("g"), n(4), one(), cell());
    let one_by_one = mixing(bind(
        "g",
        fun(int_ty(), one()),
        cell(),
        step,
        bind("h", one(), cell(), next, ret(app(v("h"), n(5)))),
    ));
    assert_eq!(run(&one_by_one), 150);
}

#[test]
fn closures_keep_what_they_captured_while_others_are_built() {
    // let a = if 1 then 7 else 8 in let f = fn x => x + a in let b = f 1 in
    // let g = fn y => y * b in let c = f 2 in g c
    let unary = || fun(int_ty(), int_ty());
    let ir = set(
        "a",
        branch(n(1), give(n(7)), give(n(8))),
        bind(
            "f",
            unary(),
            cell(),
            lam("x", int_ty(), ret(bin(BinOp::Add, v("x"), v("a")))),
            set(
                "b",
                app(v("f"), n(1)),
                bind(
                    "g",
                    unary(),
                    cell(),
                    lam("y", int_ty(), ret(bin(BinOp::Mul, v("y"), v("b")))),
                    set("c", app(v("f"), n(2)), ret(app(v("g"), v("c")))),
                ),
            ),
        ),
    );
    assert_eq!(run(&ir), 72);
}

#[test]
fn branches_build_and_call_closures_of_their_own() {
    // let a = 4 in let f = fn x => x * a in
    // let r = if a < 9 then (let g = fn y => y - a in let s = f 5 in g s) else f 1 in f r
    let unary = || fun(int_ty(), int_ty());
    let program = |a: i64| {
        let inside = bind(
            "g",
            unary(),
            cell(),
            lam("y", int_ty(), ret(bin(BinOp::Sub, v("y"), v("a")))),
            set("s", app(v("f"), n(5)), ret(app(v("g"), v("s")))),
        );
        set(
            "a",
            Comp::Atom(n(a)),
            bind(
                "f",
                unary(),
                cell(),
                lam("x", int_ty(), ret(bin(BinOp::Mul, v("x"), v("a")))),
                set(
                    "small",
                    bin(BinOp::Lt, v("a"), n(9)),
                    set("r", branch(v("small"), inside, ret(app(v("f"), n(1)))), ret(app(v("f"), v("r")))),
                ),
            ),
        )
    };
    assert_eq!(run(&program(4)), 64);
    assert_eq!(run(&program(10)), 100);
}

#[test]
fn a_trap_in_a_function_ends_the_program() {
    // let f = fn x => 10 / x in let a = f 5 in f 0
    let ir = bind(
        "f",
        fun(int_ty(), int_ty()),
        cell(),
        lam("x", int_ty(), ret(bin(BinOp::Div, n(10), v("x")))),
        set("a", app(v("f"), n(5)), ret(app(v("f"), n(0)))),
    );
    assert_eq!(ran(&ir), Err(Stop::Trap));
}

#[test]
fn trait_direct_monomorphic_call_is_devirtualized_to_zero_cost() {
    // a method that was resolved and folded is a plain value
    let m = lowered(&give(n(5)));
    assert!(!calls(&m, "locus_gc_alloc"));
    assert!(!m.script.iter().any(|c| matches!(c, Cmd::CallPtr { .. })));
    assert!(m
        .script
        .iter()
        .any(|c| matches!(c, Cmd::Ret { val: Val { id: Id::Const(5), ty: Ty::I64 } })));
    // a method in a dictionary is a field of a record, called through its code
    let ir = Ir::Let {
        name: "method".to_string(),
        ty: fun(int_ty(), int_ty()),
        layout: handle(),
        row: gc(),
        comp: Rc::new(lam("n", int_ty(), ret(bin(BinOp::Add, v("n"), n(1))))),
        rest: Rc::new(bind(
            "dict",
            Rc::new(Type::Named("ToInt".to_string())),
            handle(),
            Comp::Tuple(vec![Field { value: v("method"), layout: handle() }]),
            bind(
                "toInt",
                fun(int_ty(), int_ty()),
                handle(),
                Comp::Proj { tup: v("dict"), slot: 0, layout: handle(), ty: fun(int_ty(), int_ty()) },
                ret(app(v("toInt"), n(5))),
            ),
        )),
    };
    let m = lowered(&ir);
    assert!(calls(&m, "locus_gc_alloc"));
    assert!(m.script.iter().any(|c| matches!(c, Cmd::CallPtr { .. })));
    assert_eq!(run(&ir), 6);
}

// ── objects ──────────────────────────────────────────────────────────────
#[test]
fn fields_of_an_object_are_read_back() {
    // let a = [7] in let t = (1, a, 2) in t.2 * 100 + t.1[0] * 10 + t.0
    let fields = vec![
        Field { value: n(1), layout: cell() },
        Field { value: v("a"), layout: handle() },
        Field { value: n(2), layout: cell() },
    ];
    let field = |slot: usize, layout: ValueLayout, ty: Rc<Type>| Comp::Proj { tup: v("t"), slot, layout, ty };
    let ir = with_array(
        "a",
        &[7],
        bind(
            "t",
            Rc::new(Type::Named("T".to_string())),
            handle(),
            Comp::Tuple(fields),
            set(
                "x",
                field(0, cell(), int_ty()),
                bind(
                    "y",
                    array(),
                    handle(),
                    field(0, handle(), array()),
                    set(
                        "z",
                        field(1, cell(), int_ty()),
                        set(
                            "e",
                            get("y", n(0)),
                            set(
                                "p",
                                bin(BinOp::Mul, v("z"), n(100)),
                                set(
                                    "q",
                                    bin(BinOp::Mul, v("e"), n(10)),
                                    set(
                                        "s",
                                        bin(BinOp::Add, v("p"), v("q")),
                                        ret(bin(BinOp::Add, v("s"), v("x"))),
                                    ),
                                ),
                            ),
                        ),
                    ),
                ),
            ),
        ),
    );
    assert_eq!(run(&ir), 271);
}

#[test]
fn a_reference_cell_holds_what_was_put_last() {
    let ir = Ir::Let {
        name: "r".to_string(),
        ty: Rc::new(Type::Named("Ref".to_string())),
        layout: handle(),
        row: gc(),
        comp: Rc::new(Comp::RefNew(n(1), cell())),
        rest: Rc::new(set(
            "u",
            Comp::RefSet(v("r"), n(41), cell()),
            set("x", Comp::RefGet(v("r"), cell()), ret(bin(BinOp::Add, v("x"), n(1)))),
        )),
    };
    assert_eq!(run(&ir), 42);
}

#[test]
fn a_mutable_local_is_one_slot_of_the_entry_block() {
    // let mut s = 0 in loop i = 0 while i < 5 do (s := s + i; i + 1) else s
    let step = set(
        "old",
        Comp::SlotLoad("s".to_string()),
        set(
            "new",
            bin(BinOp::Add, v("old"), v("i")),
            set(
                "u",
                Comp::SlotStore("s".to_string(), v("new")),
                ret(bin(BinOp::Add, v("i"), n(1))),
            ),
        ),
    );
    let ir = set(
        "u0",
        Comp::SlotInit("s".to_string(), n(0)),
        set(
            "u1",
            repeat(
                vec![accumulator("i", n(0))],
                ret(bin(BinOp::Lt, v("i"), n(5))),
                vec![step],
                give(Atom::Unit),
            ),
            ret(Comp::SlotLoad("s".to_string())),
        ),
    );
    let m = lowered(&ir);
    assert_eq!(m.script.iter().filter(|c| matches!(c, Cmd::EntryAlloca { .. })).count(), 1);
    assert_eq!(run(&ir), 10);
}

fn mutable(name: &str, init: i64, rest: Ir) -> Ir {
    set("u", Comp::SlotInit(name.to_string(), n(init)), rest)
}

fn assign(name: &str, op: BinOp, by: i64, rest: Ir) -> Ir {
    set(
        "old",
        Comp::SlotLoad(name.to_string()),
        set(
            "new",
            bin(op, v("old"), n(by)),
            set("u", Comp::SlotStore(name.to_string(), v("new")), rest),
        ),
    )
}

#[test]
fn jits_mutable_local_read_modify_write() {
    let read = || ret(Comp::SlotLoad("x".to_string()));
    let to = |to: i64, rest: Ir| set("u", Comp::SlotStore("x".to_string(), n(to)), rest);
    assert_eq!(run(&mutable("x", 1, assign("x", BinOp::Add, 41, read()))), 42);
    assert_eq!(run(&mutable("x", 0, to(10, to(20, read())))), 20);
    let chain = assign("x", BinOp::Mul, 2, assign("x", BinOp::Add, 1, read()));
    assert_eq!(run(&mutable("x", 5, chain)), 11);
}

#[test]
fn jits_mutable_local_driven_by_a_loop() {
    // let mut x = 0 in let _ = (loop i = 0, acc = 0 while i < 5
    // do i + 1, (let _ = x := x + i in acc) else acc) in x
    let step = set(
        "old",
        Comp::SlotLoad("x".to_string()),
        set(
            "new",
            bin(BinOp::Add, v("old"), v("i")),
            set("u", Comp::SlotStore("x".to_string(), v("new")), give(v("acc"))),
        ),
    );
    let counted = repeat(
        vec![accumulator("i", n(0)), accumulator("acc", n(0))],
        ret(bin(BinOp::Lt, v("i"), n(5))),
        vec![ret(bin(BinOp::Add, v("i"), n(1))), step],
        give(v("acc")),
    );
    let ir = mutable("x", 0, set("w", counted, ret(Comp::SlotLoad("x".to_string()))));
    assert_eq!(run(&ir), 10);
}

#[test]
fn a_mutable_local_hides_one_of_its_name_and_leaves_the_others() {
    // let mut x = 1 in let mut y = 50 in let mut x = 2 in x := x + 5; y := y + x
    let total = set(
        "a",
        Comp::SlotLoad("x".to_string()),
        set("b", Comp::SlotLoad("y".to_string()), ret(bin(BinOp::Add, v("a"), v("b")))),
    );
    let ir = mutable("x", 1, mutable("y", 50, mutable("x", 2, assign("x", BinOp::Add, 5, total))));
    assert_eq!(run(&ir), 57);
    // A function has locals of its own, in every call.
    let body = set(
        "u",
        Comp::SlotInit("z".to_string(), v("n")),
        set(
            "done",
            bin(BinOp::Lt, v("n"), n(1)),
            ret(branch(
                v("done"),
                give(n(0)),
                set(
                    "m",
                    bin(BinOp::Sub, v("n"), n(1)),
                    set(
                        "r",
                        app(v("sum"), v("m")),
                        set("s", Comp::SlotLoad("z".to_string()), ret(bin(BinOp::Add, v("r"), v("s")))),
                    ),
                ),
            )),
        ),
    );
    let sum = lam("n", int_ty(), body);
    let called = bind("sum", fun(int_ty(), int_ty()), cell(), sum, ret(app(v("sum"), n(4))));
    assert_eq!(run(&called), 10);
}

#[test]
fn a_read_gives_back_the_low_bits_of_the_last_write_of_its_width() {
    let back = |w: MemWidth, x: i64| {
        run(&set("u", Comp::Poke(w, n(0x9000), n(x)), ret(Comp::Peek(w, n(0x9000)))))
    };
    assert_eq!(back(MemWidth::W8, 0x1FF), 0xFF);
    assert_eq!(back(MemWidth::W16, 0x1_2345), 0x2345);
    assert_eq!(back(MemWidth::W32, -1), 0xFFFF_FFFF);
    assert_eq!(back(MemWidth::W64, -1), -1);
}

#[test]
fn raw_memory_is_written_and_read_by_width() {
    // a block from the heap's own memory: write 64 bits, read parts
    let read = |w: MemWidth, at: i64| {
        let ir = set(
            "u",
            Comp::Poke(MemWidth::W64, n(0x9000), n(0x1122_3344_5566_7788)),
            ret(Comp::Peek(w, n(at))),
        );
        run(&ir)
    };
    assert_eq!(read(MemWidth::W8, 0x9000), 0x88);
    assert_eq!(read(MemWidth::W16, 0x9000), 0x7788);
    assert_eq!(read(MemWidth::W32, 0x9004), 0x1122_3344);
    assert_eq!(read(MemWidth::W64, 0x9000), 0x1122_3344_5566_7788);
    let filled = set(
        "u",
        Comp::Fill(n(0x9000), n(0xAB), n(4)),
        set("w", Comp::Copy(n(0x9100), n(0x9000), n(3)), ret(Comp::Peek(MemWidth::W32, n(0x9100)))),
    );
    assert_eq!(run(&filled), 0x00AB_ABAB);
}

// ── effects ──────────────────────────────────────────────────────────────
fn clause(op: &str, shape: Shape, body: Ir) -> IrOpClause {
    IrOpClause {
        op: Label::User(op.to_string()),
        arg: "s".to_string(),
        arg_ty: int_ty(),
        arg_layout: cell(),
        resume: "resume".to_string(),
        resume_ty: fun(int_ty(), int_ty()),
        resume_layout: cell(),
        shape,
        body: Rc::new(body),
    }
}

fn handled(scrutinee: Ir, ops: Vec<IrOpClause>, ret_body: Ir) -> Comp {
    Comp::Handle {
        scrutinee: Rc::new(scrutinee),
        handler: Rc::new(IrHandler {
            ops: Rc::new(ops),
            ret: IrRetClause {
                var: "y".to_string(),
                var_ty: int_ty(),
                var_layout: cell(),
                body: Rc::new(ret_body),
                body_ty: int_ty(),
            },
        }),
    }
}

fn perform(op: &str, arg: i64) -> Comp {
    Comp::Perform(Label::User(op.to_string()), n(arg))
}

#[test]
fn a_tail_resumptive_clause_is_inlined() {
    // handle (1 + perform get 20) with { get(s) => resume (s + 1) ; return(y) => y * 2 }
    let scrutinee = set("x", perform("get", 20), ret(bin(BinOp::Add, n(1), v("x"))));
    let body = set("t", bin(BinOp::Add, v("s"), n(1)), ret(app(v("resume"), v("t"))));
    let ir = ret(handled(
        scrutinee,
        vec![clause("get", Shape::Tail, body)],
        ret(bin(BinOp::Mul, v("y"), n(2))),
    ));
    assert_eq!(run(&ir), 44);
    assert_eq!(lifted(&lowered(&ir)), 0);
}

#[test]
fn an_aborting_clause_drops_the_rest() {
    // handle (1 + perform stop 20) with { stop(s) => s + 5 ; return(y) => y * 2 }
    let scrutinee = set("x", perform("stop", 20), ret(bin(BinOp::Div, v("x"), n(0))));
    let ir = ret(handled(
        scrutinee,
        vec![clause("stop", Shape::Abort, ret(bin(BinOp::Add, v("s"), n(5))))],
        ret(bin(BinOp::Mul, v("y"), n(2))),
    ));
    assert_eq!(run(&ir), 25);
}

#[test]
fn jits_a_tail_resumptive_handler() {
    // handle perform console 0 with { console(s) => resume () ; return(y) => 42 }
    let mut console = clause("console", Shape::Tail, ret(app(v("resume"), Atom::Unit)));
    console.op = Label::World("console".to_string());
    let scrutinee = ret(Comp::Perform(Label::World("console".to_string()), n(0)));
    assert_eq!(run(&ret(handled(scrutinee, vec![console], give(n(42))))), 42);
}

#[test]
fn jits_an_abort_handler() {
    // handle (let z = perform fail () in z + 100) with { fail(x) => 7 ; return(y) => y }
    let scrutinee = set("z", perform("fail", 0), ret(bin(BinOp::Add, v("z"), n(100))));
    let ir = ret(handled(scrutinee, vec![clause("fail", Shape::Abort, give(n(7)))], give(v("y"))));
    assert_eq!(run(&ir), 7);
}

#[test]
fn a_handler_gives_its_return_clause_or_an_aborting_clause() {
    // handle (let a = perform get 3 in if a < limit then a * 2 else perform stop a)
    // with { get(s) => resume (s + 1) ; stop(s) => s + 100 ; return(y) => y + 1000 }
    let make = |limit: i64| {
        let stop = ret(Comp::Perform(Label::User("stop".to_string()), v("a")));
        let scrutinee = set(
            "a",
            perform("get", 3),
            set(
                "small",
                bin(BinOp::Lt, v("a"), n(limit)),
                ret(branch(v("small"), ret(bin(BinOp::Mul, v("a"), n(2))), stop)),
            ),
        );
        let resumed = set("t", bin(BinOp::Add, v("s"), n(1)), ret(app(v("resume"), v("t"))));
        ret(handled(
            scrutinee,
            vec![
                clause("get", Shape::Tail, resumed),
                clause("stop", Shape::Abort, ret(bin(BinOp::Add, v("s"), n(100)))),
            ],
            ret(bin(BinOp::Add, v("y"), n(1000))),
        ))
    };
    assert_eq!(run(&make(10)), 1008);
    assert_eq!(run(&make(1)), 104);
}

fn flip(shape: Shape, body: Ir) -> Ir {
    // handle (perform flip 3 * 10) with { flip(s) => body ; return(y) => y + 1 }
    let scrutinee = set("x", perform("flip", 3), ret(bin(BinOp::Mul, v("x"), n(10))));
    ret(handled(
        scrutinee,
        vec![clause("flip", shape, body)],
        ret(bin(BinOp::Add, v("y"), n(1))),
    ))
}

#[test]
fn a_continuation_can_be_resumed_once() {
    // flip(s) => resume s - 2
    let body = set("r", app(v("resume"), v("s")), ret(bin(BinOp::Sub, v("r"), n(2))));
    assert_eq!(run(&flip(Shape::OneShot, body)), 29);
}

#[test]
fn a_continuation_can_be_resumed_twice() {
    // flip(s) => resume 1 + resume 2
    let body = set(
        "a",
        app(v("resume"), n(1)),
        set("b", app(v("resume"), n(2)), ret(bin(BinOp::Add, v("a"), v("b")))),
    );
    assert_eq!(run(&flip(Shape::Multi, body)), 32);
}

#[test]
fn an_unhandled_effect_is_an_error() {
    let e = emit_module(&ret(perform("Db", 1)), false).unwrap_err();
    assert!(e.contains("Db"), "{e}");
}

#[test]
fn clauses_are_inlined_into_one_another_to_any_depth() {
    // each of many handlers asks the one outside it
    let step = |i: usize| {
        let op = format!("op{}", i - 1);
        clause(&format!("op{i}"), Shape::Tail, set("t", perform(&op, 1), ret(app(v("resume"), v("t")))))
    };
    let mut ir = ret(perform("op40", 1));
    for i in (1..41).rev() {
        ir = ret(handled(ir, vec![step(i)], give(v("y"))));
    }
    let first = clause("op0", Shape::Tail, ret(app(v("resume"), n(7))));
    let ir = ret(handled(ir, vec![first], give(v("y"))));
    assert_eq!(run(&ir), 7);
    let e = emit_module_within(&ir, false, 40).unwrap_err();
    assert!(e.contains("too deeply"), "{e}");
}

#[test]
fn a_clause_that_performs_its_own_operation_is_refused() {
    let body = set("t", perform("get", 1), ret(app(v("resume"), v("t"))));
    let ir = ret(handled(
        ret(perform("get", 1)),
        vec![clause("get", Shape::Tail, body)],
        give(v("y")),
    ));
    let e = emit_module(&ir, false).unwrap_err();
    assert!(e.contains("get") && e.contains("its own operation"), "{e}");
}

// ── vectors ──────────────────────────────────────────────────────────────
fn quad(elems: [f64; 4], rest: Ir) -> Ir {
    let mut out = bind(
        "q",
        quad_ty(),
        quad_layout(),
        Comp::VectorLit {
            shape: VectorShape::Quad,
            elem_ty: float32(),
            elems: (0..4).map(|i| v(&format!("e{i}"))).collect(),
        },
        rest,
    );
    for (i, e) in elems.iter().enumerate().rev() {
        out = bind(
            &format!("e{i}"),
            float32(),
            packed_float(),
            Comp::Cast(CastOp::ToFloat32, f(*e)),
            out,
        );
    }
    out
}

fn splat(name: &str, x: f64, rest: Ir) -> Ir {
    bind(
        "sx",
        float32(),
        packed_float(),
        Comp::Cast(CastOp::ToFloat32, f(x)),
        bind(
            name,
            quad_ty(),
            quad_layout(),
            Comp::VectorSplat { shape: VectorShape::Quad, elem_ty: float32(), value: v("sx") },
            rest,
        ),
    )
}

fn lane(vector: &str, lane: usize) -> Ir {
    bind(
        "x",
        float32(),
        packed_float(),
        Comp::VectorExtract { vector: v(vector), lane, elem_ty: float32() },
        rounded(v("x")),
    )
}

fn load_quad(arr: &str, idx: Atom) -> Comp {
    Comp::VectorLoad { shape: VectorShape::Quad, elem_ty: float32(), arr: v(arr), idx }
}

fn add_quads(a: &str, b: &str) -> Comp {
    Comp::VectorBin { op: BinOp::Add, shape: VectorShape::Quad, elem_ty: float32(), lhs: v(a), rhs: v(b) }
}

fn store_quad(arr: &str, idx: Atom, value: &str) -> Comp {
    Comp::VectorStore { shape: VectorShape::Quad, elem_ty: float32(), arr: v(arr), idx, value: v(value) }
}

fn first_float(arr: &str, i: i64) -> Ir {
    bind(
        "x",
        float32(),
        packed_float(),
        Comp::ArrayGet { arr: v(arr), idx: n(i), elem_layout: packed_float(), elem_ty: float32() },
        rounded(v("x")),
    )
}

#[test]
fn vector_array_load_store_emits_packed_simd_memory_ops() {
    let ir = with_floats(
        "a",
        &[9.0, 9.0, 9.0, 9.0],
        with_floats(
            "b",
            &[1.0, 2.0, 3.0, 4.0],
            with_floats(
                "out",
                &[0.0, 0.0, 0.0, 0.0],
                bind(
                    "qa",
                    quad_ty(),
                    quad_layout(),
                    load_quad("a", n(0)),
                    bind(
                        "qb",
                        quad_ty(),
                        quad_layout(),
                        load_quad("b", n(0)),
                        bind(
                            "qs",
                            quad_ty(),
                            quad_layout(),
                            add_quads("qa", "qb"),
                            set("u", store_quad("out", n(0), "qs"), first_float("out", 0)),
                        ),
                    ),
                ),
            ),
        ),
    );
    let m = lowered(&ir);
    assert_eq!(vector_loads(&m), 2, "loadQuad should be one packed vector load");
    assert_eq!(
        m.script
            .iter()
            .filter(|c| matches!(c, Cmd::Store { val: Val { ty: Ty::VecF32(4), .. }, align: 4, .. }))
            .count(),
        1,
        "storeQuad should be one packed vector store"
    );
    assert_eq!(run(&ir), 10);
}

fn kernel() -> Ir {
    kernel_then(first_float("out", 6))
}

fn kernel_then(rest: Ir) -> Ir {
    // loop i = 0, acc = 0 while i < len out do i + 4, (out[i..] <- a[i..] + b[i..]; acc) else acc
    let step = bind(
        "qa",
        quad_ty(),
        quad_layout(),
        load_quad("a", v("i")),
        bind(
            "qb",
            quad_ty(),
            quad_layout(),
            load_quad("b", v("i")),
            bind(
                "qs",
                quad_ty(),
                quad_layout(),
                add_quads("qa", "qb"),
                set("u", store_quad("out", v("i"), "qs"), give(v("acc"))),
            ),
        ),
    );
    let body = repeat(
        vec![accumulator("i", n(0)), accumulator("acc", n(0))],
        below_len("out"),
        vec![ret(bin(BinOp::Add, v("i"), n(4))), step],
        give(v("acc")),
    );
    with_floats(
        "a",
        &[1.0, 2.0, 3.0, 4.0, 5.0, 6.0, 7.0, 8.0],
        with_floats(
            "b",
            &[10.0, 20.0, 30.0, 40.0, 50.0, 60.0, 70.0, 80.0],
            with_floats("out", &[0.0; 8], set("w", body, rest)),
        ),
    )
}

#[test]
fn vector_kernel_loop_hoists_the_array_handle_deref_out_of_the_loop() {
    let ir = kernel();
    let m = lowered(&ir);
    let derefs = calls_of(&m, "locus_gc_scalar_fields_ptr");
    assert_eq!(derefs.len(), 3, "the loop's three arrays are each derefed once (hoisted)");
    let head = block_at(&m, "loop");
    let entry = m
        .script
        .iter()
        .position(|c| matches!(c, Cmd::Br { to } if *to == head))
        .expect("the kernel emits a loop with a preheader branch");
    for at in derefs {
        assert!(at < entry, "every array handle deref must be hoisted into the preheader");
    }
    assert!(vector_loads(&m) > 0);
    assert!(has_label(&m, "vec.idx.past") && has_block(&m, "vector.index.trap"));
    assert_eq!(run(&ir), 77);
}

#[test]
fn vector_load_bounds_check_emits_a_trap() {
    let ir = with_floats(
        "a",
        &[1.0, 2.0, 3.0, 4.0],
        bind("q", quad_ty(), quad_layout(), load_quad("a", n(2)), lane("q", 0)),
    );
    let m = lowered(&ir);
    assert!(has_block(&m, "vector.index.trap"));
    assert!(calls(&m, "llvm.trap"));
    assert_eq!(vector_loads(&m), 1);
    assert_eq!(ran(&ir), Err(Stop::Trap));
}

#[test]
fn the_largest_index_of_a_vector_traps() {
    for i in [i64::MAX, i64::MAX - 3, i64::MIN, -1, 1] {
        let ir = with_floats(
            "a",
            &[1.0, 2.0, 3.0, 4.0],
            bind("q", quad_ty(), quad_layout(), load_quad("a", n(i)), lane("q", 0)),
        );
        assert_eq!(ran(&ir), Err(Stop::Trap), "{i}");
    }
}

#[test]
fn explicit_vector_math_emits_llvm_intrinsics() {
    let ir = splat(
        "a",
        4.0,
        splat(
            "b",
            2.0,
            bind(
                "r",
                quad_ty(),
                quad_layout(),
                Comp::FloatMathUnary { op: FloatMathOp::Sqrt, ty: quad_ty(), value: v("a") },
                bind(
                    "c",
                    quad_ty(),
                    quad_layout(),
                    Comp::FloatMathTernary { op: FloatMathOp::Fma, ty: quad_ty(), a: v("a"), b: v("b"), c: v("r") },
                    lane("c", 0),
                ),
            ),
        ),
    );
    let m = lowered(&ir);
    assert!(calls(&m, "llvm.sqrt.v4f32"));
    assert!(calls(&m, "llvm.fma.v4f32"));
    assert_eq!(run(&ir), 10);
}

#[test]
fn vector_reductions_emit_llvm_intrinsics() {
    let ir = quad(
        [1.0, 2.0, 3.0, 4.0],
        bind(
            "s",
            float32(),
            packed_float(),
            Comp::FloatMathUnary { op: FloatMathOp::Sum, ty: quad_ty(), value: v("q") },
            rounded(v("s")),
        ),
    );
    assert!(calls(&lowered(&ir), "llvm.vector.reduce.fadd.v4f32"));
    assert_eq!(run(&ir), 10);
}

fn masked(rest: Ir) -> Ir {
    // let q = Quad(1, 5, 2, 8) in let b = splat 4 in let m = q < b in rest
    quad(
        [1.0, 5.0, 2.0, 8.0],
        splat(
            "b",
            4.0,
            bind(
                "m",
                Rc::new(Type::Mask(VectorShape::Quad)),
                cell(),
                Comp::VectorCompare {
                    op: BinOp::Lt,
                    shape: VectorShape::Quad,
                    elem_ty: float32(),
                    lhs: v("q"),
                    rhs: v("b"),
                },
                rest,
            ),
        ),
    )
}

fn chosen() -> Comp {
    Comp::VectorSelect {
        shape: VectorShape::Quad,
        elem_ty: float32(),
        mask: v("m"),
        then_value: v("b"),
        else_value: v("q"),
    }
}

#[test]
fn vector_masks_emit_fcmp_and_select() {
    let ir = masked(bind("c", quad_ty(), quad_layout(), chosen(), lane("c", 0)));
    let m = lowered(&ir);
    assert!(m.script.iter().any(|c| matches!(
        c,
        Cmd::FloatTest { pred: FloatPred::Olt, a: Val { ty: Ty::VecF32(4), .. }, .. }
    )));
    assert!(m.script.iter().any(|c| matches!(c, Cmd::Select { mask: Val { ty: Ty::Mask(4), .. }, .. })));
    for (i, want) in [4, 5, 4, 8].into_iter().enumerate() {
        assert_eq!(run(&masked(bind("c", quad_ty(), quad_layout(), chosen(), lane("c", i)))), want);
    }
}

#[test]
fn masks_reduce_to_truth_values() {
    let reduce = |op: MaskReduceOp| {
        run(&masked(ret(Comp::MaskReduce { op, shape: VectorShape::Quad, mask: v("m") })))
    };
    assert_eq!(reduce(MaskReduceOp::Any), 1);
    assert_eq!(reduce(MaskReduceOp::All), 0);
}

fn oct_ty() -> Rc<Type> {
    Rc::new(Type::Vector(VectorShape::Oct, float32()))
}

#[test]
fn vector_function_abi_emits_typed_llvm_vectors() {
    let names: Vec<String> = (0..8).map(|i| format!("e{i}")).collect();
    let mut body = ret(Comp::VectorLit {
        shape: VectorShape::Oct,
        elem_ty: float32(),
        elems: names.iter().map(|x| v(x)).collect(),
    });
    for i in (0..8).rev() {
        body = bind(
            &names[i],
            float32(),
            packed_float(),
            Comp::Cast(CastOp::ToFloat32, f(i as f64 + 1.0)),
            body,
        );
    }
    let layout = ValueLayout::scalar_bytes(32, 32);
    let ir = bind(
        "make",
        fun(int_ty(), oct_ty()),
        cell(),
        lam("n", oct_ty(), body),
        bind(
            "r",
            oct_ty(),
            layout,
            app_to(v("make"), n(0), oct_ty(), layout),
            bind(
                "s",
                float32(),
                packed_float(),
                Comp::FloatMathUnary { op: FloatMathOp::Sum, ty: oct_ty(), value: v("r") },
                rounded(v("s")),
            ),
        ),
    );
    let m = lowered(&ir);
    assert!(m
        .script
        .iter()
        .any(|c| matches!(c, Cmd::Func { name: FuncName::Lam(_), ret: Ty::VecF32(8) })));
    assert!(m.script.iter().any(|c| matches!(
        c,
        Cmd::CallPtr { ret: Ty::VecF32(8), .. } | Cmd::Call { ret: Ty::VecF32(8), .. }
    )));
    assert_eq!(run(&ir), 36);
}

#[test]
fn a_vector_survives_an_object_and_a_closure() {
    // let t = (q, 5) in let g = fn k => t.0 … in lane 2 of what g gives
    let ir = quad(
        [4.0, 5.0, 6.0, 7.0],
        Ir::Let {
            name: "t".to_string(),
            ty: Rc::new(Type::Named("T".to_string())),
            layout: handle(),
            row: gc(),
            comp: Rc::new(Comp::Tuple(vec![
                Field { value: n(5), layout: cell() },
                Field { value: v("q"), layout: quad_layout() },
            ])),
            rest: Rc::new(bind(
                "g",
                fun(int_ty(), int_ty()),
                handle(),
                lam(
                    "k",
                    int_ty(),
                    bind(
                        "back",
                        quad_ty(),
                        quad_layout(),
                        Comp::Proj { tup: v("t"), slot: 1, layout: quad_layout(), ty: quad_ty() },
                        bind("both", quad_ty(), quad_layout(), add_quads("back", "q"), lane("both", 2)),
                    ),
                ),
                ret(app(v("g"), n(0))),
            )),
        },
    );
    assert_eq!(run(&ir), 12);
}

#[test]
fn a_captured_mask_comes_back() {
    // let g = fn k => lane of (if m then b else q) in g 0
    for (i, want) in [4, 5, 4, 8].into_iter().enumerate() {
        let ir = masked(bind(
            "g",
            fun(int_ty(), int_ty()),
            cell(),
            lam("k", int_ty(), bind("c", quad_ty(), quad_layout(), chosen(), lane("c", i))),
            ret(app(v("g"), n(0))),
        ));
        assert!(has_label(&lowered(&ir), "mask.pack.or"));
        assert_eq!(run(&ir), want);
    }
}

#[test]
fn a_vector_is_no_program_result() {
    let e = emit_module(&quad([1.0, 2.0, 3.0, 4.0], give(v("q"))), false).unwrap_err();
    assert!(e.contains("program result requires a scalar cell"), "{e}");
    let e = emit_module(&masked(give(v("m"))), false).unwrap_err();
    assert!(e.contains("reduce a mask with `any`/`all`"), "{e}");
}

// ── floats in every place ────────────────────────────────────────────────
/// `let x = … in … in last`
fn lets(binds: Vec<(&str, Rc<Type>, ValueLayout, Comp)>, last: Comp) -> Ir {
    let mut out = ret(last);
    for (name, ty, layout, comp) in binds.into_iter().rev() {
        out = Ir::Let {
            name: name.to_string(),
            ty,
            layout,
            row: gc(),
            comp: Rc::new(comp),
            rest: Rc::new(out),
        };
    }
    out
}

fn wide(name: &str, comp: Comp) -> (&str, Rc<Type>, ValueLayout, Comp) {
    (name, float(), cell(), comp)
}

fn narrow(name: &str, comp: Comp) -> (&str, Rc<Type>, ValueLayout, Comp) {
    (name, float32(), packed_float(), comp)
}

fn as_quad(name: &str, comp: Comp) -> (&str, Rc<Type>, ValueLayout, Comp) {
    (name, quad_ty(), quad_layout(), comp)
}

fn as_pair(name: &str, comp: Comp) -> (&str, Rc<Type>, ValueLayout, Comp) {
    (name, pair_ty(), quad_layout(), comp)
}

fn held(name: &str, comp: Comp) -> (&str, Rc<Type>, ValueLayout, Comp) {
    (name, array(), handle(), comp)
}

fn pair_ty() -> Rc<Type> {
    Rc::new(Type::Vector(VectorShape::Pair, float()))
}

fn fadd(a: Atom, b: Atom) -> Comp {
    Comp::FloatBin(BinOp::Add, a, b)
}

fn to_f32(x: f64) -> Comp {
    Comp::Cast(CastOp::ToFloat32, f(x))
}

fn from_f32(x: &str) -> Comp {
    Comp::Cast(CastOp::FromFloat32, v(x))
}

fn quad_of(x: &str, y: &str, z: &str, w: &str) -> Comp {
    Comp::VectorLit {
        shape: VectorShape::Quad,
        elem_ty: float32(),
        elems: vec![v(x), v(y), v(z), v(w)],
    }
}

fn pair_of(x: f64, y: f64) -> Comp {
    Comp::VectorLit { shape: VectorShape::Pair, elem_ty: float(), elems: vec![f(x), f(y)] }
}

fn splat_quad(x: &str) -> Comp {
    Comp::VectorSplat { shape: VectorShape::Quad, elem_ty: float32(), value: v(x) }
}

fn splat_pair(x: f64) -> Comp {
    Comp::VectorSplat { shape: VectorShape::Pair, elem_ty: float(), value: f(x) }
}

fn quads(op: BinOp, a: &str, b: &str) -> Comp {
    Comp::VectorBin { op, shape: VectorShape::Quad, elem_ty: float32(), lhs: v(a), rhs: v(b) }
}

fn pairs(op: BinOp, a: &str, b: &str) -> Comp {
    Comp::VectorBin { op, shape: VectorShape::Pair, elem_ty: float(), lhs: v(a), rhs: v(b) }
}

fn lane_of(vector: &str, lane: usize) -> Comp {
    Comp::VectorExtract { vector: v(vector), lane, elem_ty: float32() }
}

fn wide_lane_of(vector: &str, lane: usize) -> Comp {
    Comp::VectorExtract { vector: v(vector), lane, elem_ty: float() }
}

/// The four numbers as 32-bit floats in `x`, `y`, `z` and `w`.
fn four(x: f64, y: f64, z: f64, w: f64) -> Vec<(&'static str, Rc<Type>, ValueLayout, Comp)> {
    vec![
        narrow("x", to_f32(x)),
        narrow("y", to_f32(y)),
        narrow("z", to_f32(z)),
        narrow("w", to_f32(w)),
    ]
}

/// The sum of the lanes of the quad `c`.
fn lane_sum() -> (Vec<(&'static str, Rc<Type>, ValueLayout, Comp)>, Comp) {
    (
        vec![
            narrow("c0", lane_of("c", 0)),
            narrow("c1", lane_of("c", 1)),
            narrow("c2", lane_of("c", 2)),
            narrow("c3", lane_of("c", 3)),
            wide("w0", from_f32("c0")),
            wide("w1", from_f32("c1")),
            wide("w2", from_f32("c2")),
            wide("w3", from_f32("c3")),
            wide("s1", fadd(v("w0"), v("w1"))),
            wide("s2", fadd(v("s1"), v("w2"))),
        ],
        fadd(v("s2"), v("w3")),
    )
}

fn summed(before: Vec<(&'static str, Rc<Type>, ValueLayout, Comp)>) -> Ir {
    let (lanes, last) = lane_sum();
    lets(before.into_iter().chain(lanes).collect(), last)
}

#[test]
fn jits_mutable_float_local() {
    let ir = lets(
        vec![
            wide("u", Comp::SlotInit("x".to_string(), f(1.5))),
            wide("a", Comp::SlotLoad("x".to_string())),
            wide("b", fadd(v("a"), f(0.5))),
            wide("_", Comp::SlotStore("x".to_string(), v("b"))),
        ],
        Comp::SlotLoad("x".to_string()),
    );
    assert_eq!(run_f64(&ir), 2.0);
}

#[test]
fn jits_a_scalar_ref_float_round_trip() {
    let ir = lets(
        vec![
            held("r", Comp::RefNew(f(1.5), cell())),
            wide("a", Comp::RefGet(v("r"), cell())),
            wide("b", fadd(v("a"), f(2.0))),
            wide("_", Comp::RefSet(v("r"), v("b"), cell())),
        ],
        Comp::RefGet(v("r"), cell()),
    );
    assert_eq!(run_f64(&ir), 3.5);
}

#[test]
fn jits_local_simd_vector_arithmetic() {
    let mut add = four(1.0, 2.0, 3.0, 4.0);
    add.push(as_quad("a", quad_of("x", "y", "z", "w")));
    add.push(narrow("ten", to_f32(10.0)));
    add.push(as_quad("b", splat_quad("ten")));
    add.push(as_quad("c", quads(BinOp::Add, "a", "b")));
    assert_eq!(run_f64(&summed(add)), 50.0);

    let halved = lets(
        vec![
            as_pair("a", pair_of(1.25, 2.5)),
            as_pair("b", splat_pair(0.5)),
            as_pair("c", pairs(BinOp::Mul, "a", "b")),
            wide("c0", wide_lane_of("c", 0)),
            wide("c1", wide_lane_of("c", 1)),
        ],
        fadd(v("c0"), v("c1")),
    );
    assert_eq!(run_f64(&halved), 1.875);

    let mut scaled = four(1.0, 2.0, 3.0, 4.0);
    scaled.push(as_quad("a", quad_of("x", "y", "z", "w")));
    scaled.push(narrow("k", to_f32(4.0)));
    scaled.push(as_quad("b", splat_quad("k")));
    scaled.push(as_quad("c", quads(BinOp::Mul, "a", "b")));
    assert_eq!(run_f64(&summed(scaled)), 40.0);

    let scaled = lets(
        vec![
            as_pair("a", pair_of(1.25, 2.5)),
            as_pair("k", splat_pair(4.0)),
            as_pair("c", pairs(BinOp::Mul, "k", "a")),
            wide("c0", wide_lane_of("c", 0)),
            wide("c1", wide_lane_of("c", 1)),
        ],
        fadd(v("c0"), v("c1")),
    );
    assert_eq!(run_f64(&scaled), 15.0);
}

#[test]
fn jits_vector_field_in_record_round_trips() {
    // { v = Quad(10, 20, 30, 40), n = 7 }: p.v.x + p.v.w + p.n
    let mut binds = four(10.0, 20.0, 30.0, 40.0);
    binds.extend(vec![
        as_quad("q", quad_of("x", "y", "z", "w")),
        held(
            "p",
            Comp::Tuple(vec![
                Field { value: n(7), layout: cell() },
                Field { value: v("q"), layout: quad_layout() },
            ]),
        ),
        as_quad("back", Comp::Proj { tup: v("p"), slot: 1, layout: quad_layout(), ty: quad_ty() }),
        narrow("bx", lane_of("back", 0)),
        narrow("bw", lane_of("back", 3)),
        wide("wx", from_f32("bx")),
        wide("ww", from_f32("bw")),
        wide("s", fadd(v("wx"), v("ww"))),
        ("k", int_ty(), cell(), Comp::Proj { tup: v("p"), slot: 0, layout: cell(), ty: int_ty() }),
        wide("fk", Comp::Cast(CastOp::ToFloat, v("k"))),
    ]);
    assert_eq!(run_f64(&lets(binds, fadd(v("s"), v("fk")))), 57.0);

    // { hi = 1, d = Pair(1.25, 2.5) }: p.d.lane0 + p.d.lane1 + p.hi
    let ir = lets(
        vec![
            as_pair("d", pair_of(1.25, 2.5)),
            held(
                "p",
                Comp::Tuple(vec![
                    Field { value: v("d"), layout: quad_layout() },
                    Field { value: n(1), layout: cell() },
                ]),
            ),
            as_pair("back", Comp::Proj { tup: v("p"), slot: 0, layout: quad_layout(), ty: pair_ty() }),
            wide("l0", wide_lane_of("back", 0)),
            wide("l1", wide_lane_of("back", 1)),
            wide("s", fadd(v("l0"), v("l1"))),
            ("hi", int_ty(), cell(), Comp::Proj { tup: v("p"), slot: 2, layout: cell(), ty: int_ty() }),
            wide("fhi", Comp::Cast(CastOp::ToFloat, v("hi"))),
        ],
        fadd(v("s"), v("fhi")),
    );
    assert_eq!(run_f64(&ir), 4.75);
}

#[test]
fn jits_vector_array_round_trips() {
    let elem = |i: i64| Comp::ArrayGet {
        arr: v("a"),
        idx: n(i),
        elem_layout: quad_layout(),
        elem_ty: quad_ty(),
    };
    let list = |a: &str, b: &str| Comp::ArrayLit { elems: vec![v(a), v(b)], elem_layout: quad_layout() };
    let mut binds = four(1.0, 2.0, 3.0, 4.0);
    binds.extend(vec![
        narrow("o", to_f32(0.0)),
        as_quad("p", splat_quad("o")),
        as_quad("r", splat_quad("o")),
        held("a", list("p", "r")),
        as_quad("q", quad_of("x", "y", "z", "w")),
        ("_", int_ty(), cell(), Comp::ArraySet {
            arr: v("a"),
            idx: n(1),
            val: v("q"),
            elem_layout: quad_layout(),
        }),
        as_quad("c", elem(1)),
    ]);
    assert_eq!(run_f64(&summed(binds)), 10.0);

    let mut binds = four(5.0, 6.0, 7.0, 8.0);
    binds.extend(vec![
        as_quad("q", quad_of("x", "y", "z", "w")),
        narrow("o", to_f32(0.0)),
        as_quad("r", splat_quad("o")),
        held("a", list("q", "r")),
        as_quad("c", elem(0)),
        narrow("c0", lane_of("c", 0)),
        narrow("c3", lane_of("c", 3)),
        wide("w0", from_f32("c0")),
        wide("w3", from_f32("c3")),
    ]);
    assert_eq!(run_f64(&lets(binds, fadd(v("w0"), v("w3")))), 13.0);
}

#[test]
fn jits_vector_array_load_add_store_kernel() {
    let element = |i: i64| Comp::ArrayGet {
        arr: v("out"),
        idx: n(i),
        elem_layout: packed_float(),
        elem_ty: float32(),
    };
    let reads = lets(
        vec![
            narrow("o0", element(0)),
            narrow("o3", element(3)),
            narrow("o4", element(4)),
            narrow("o7", element(7)),
            wide("w0", from_f32("o0")),
            wide("w3", from_f32("o3")),
            wide("w4", from_f32("o4")),
            wide("w7", from_f32("o7")),
            wide("s1", fadd(v("w0"), v("w3"))),
            wide("s2", fadd(v("s1"), v("w4"))),
        ],
        fadd(v("s2"), v("w7")),
    );
    assert_eq!(run_f64(&kernel_then(reads)), 198.0);

    let pair_at = |arr: &str| Comp::VectorLoad {
        shape: VectorShape::Pair,
        elem_ty: float(),
        arr: v(arr),
        idx: n(0),
    };
    let list = |x: f64, y: f64| Comp::ArrayLit { elems: vec![f(x), f(y)], elem_layout: cell() };
    let element = |i: i64| Comp::ArrayGet {
        arr: v("out"),
        idx: n(i),
        elem_layout: cell(),
        elem_ty: float(),
    };
    let ir = lets(
        vec![
            held("a", list(1.5, 2.5)),
            held("b", list(10.0, 20.0)),
            held("out", list(0.0, 0.0)),
            as_pair("pa", pair_at("a")),
            as_pair("pb", pair_at("b")),
            as_pair("ps", pairs(BinOp::Add, "pa", "pb")),
            ("_", int_ty(), cell(), Comp::VectorStore {
                shape: VectorShape::Pair,
                elem_ty: float(),
                arr: v("out"),
                idx: n(0),
                value: v("ps"),
            }),
            wide("o0", element(0)),
            wide("o1", element(1)),
        ],
        fadd(v("o0"), v("o1")),
    );
    assert_eq!(run_f64(&ir), 34.0);
}

#[test]
fn jits_explicit_sqrt_and_fma() {
    let sqrt = |ty: Rc<Type>, value: Atom| Comp::FloatMathUnary { op: FloatMathOp::Sqrt, ty, value };
    assert_eq!(run_f64(&ret(sqrt(float(), f(9.0)))), 3.0);
    let fma = Comp::FloatMathTernary {
        op: FloatMathOp::Fma,
        ty: float(),
        a: f(1.5),
        b: f(2.0),
        c: f(0.25),
    };
    assert_eq!(run_f64(&ret(fma)), 3.25);
    let small = lets(
        vec![narrow("x", to_f32(9.0)), narrow("r", sqrt(float32(), v("x")))],
        from_f32("r"),
    );
    assert_eq!(run_f64(&small), 3.0);

    let mut roots = four(4.0, 9.0, 16.0, 25.0);
    roots.push(as_quad("a", quad_of("x", "y", "z", "w")));
    roots.push(as_quad("c", sqrt(quad_ty(), v("a"))));
    assert_eq!(run_f64(&summed(roots)), 14.0);

    let fused = lets(
        vec![
            narrow("two", to_f32(2.0)),
            narrow("three", to_f32(3.0)),
            narrow("four", to_f32(4.0)),
            as_quad("a", splat_quad("two")),
            as_quad("b", splat_quad("three")),
            as_quad("k", splat_quad("four")),
            as_quad("r", Comp::FloatMathTernary {
                op: FloatMathOp::Fma,
                ty: quad_ty(),
                a: v("a"),
                b: v("b"),
                c: v("k"),
            }),
            narrow("r0", lane_of("r", 0)),
            narrow("r3", lane_of("r", 3)),
            wide("w0", from_f32("r0")),
            wide("w3", from_f32("r3")),
        ],
        fadd(v("w0"), v("w3")),
    );
    assert_eq!(run_f64(&fused), 20.0);
}

#[test]
fn jits_vector_reductions() {
    let reduced = |op: FloatMathOp, x: f64, y: f64, z: f64, w: f64| {
        let mut binds = four(x, y, z, w);
        binds.push(as_quad("q", quad_of("x", "y", "z", "w")));
        binds.push(narrow("r", Comp::FloatMathUnary { op, ty: quad_ty(), value: v("q") }));
        run_f64(&lets(binds, from_f32("r")))
    };
    assert_eq!(reduced(FloatMathOp::Sum, 1.0, 2.0, 3.0, 4.0), 10.0);
    let dot = lets(
        vec![as_pair("a", pair_of(1.0, 2.0)), as_pair("b", pair_of(3.0, 4.0))],
        Comp::FloatMathBinary { op: FloatMathOp::Dot, ty: pair_ty(), lhs: v("a"), rhs: v("b") },
    );
    assert_eq!(run_f64(&dot), 11.0);
    assert_eq!(reduced(FloatMathOp::Length, 3.0, 4.0, 0.0, 0.0), 5.0);
}

fn maker(x: f64, y: f64, z: f64, w: f64) -> Comp {
    // fn n => Quad(x, y, z, w)
    lam("n", quad_ty(), lets(four(x, y, z, w), quad_of("x", "y", "z", "w")))
}

#[test]
fn a_function_returning_a_quad_has_its_result_stored_and_read_back() {
    let made = || Comp::App {
        fun: v("make"),
        arg: n(0),
        arg_ty: int_ty(),
        ret_ty: quad_ty(),
        ret_layout: quad_layout(),
    };
    let element = |i: i64| Comp::ArrayGet {
        arr: v("out"),
        idx: n(i),
        elem_layout: packed_float(),
        elem_ty: float32(),
    };
    let reads = lets(
        vec![
            narrow("o0", element(0)),
            narrow("o1", element(1)),
            narrow("o2", element(2)),
            narrow("o3", element(3)),
            wide("w0", from_f32("o0")),
            wide("w1", from_f32("o1")),
            wide("w2", from_f32("o2")),
            wide("w3", from_f32("o3")),
            wide("s1", fadd(v("w0"), v("w1"))),
            wide("s2", fadd(v("s1"), v("w2"))),
        ],
        fadd(v("s2"), v("w3")),
    );
    let stored = bind(
        "make",
        fun(int_ty(), quad_ty()),
        handle(),
        maker(10.0, 11.0, 12.0, 13.0),
        with_floats(
            "out",
            &[0.0, 0.0, 0.0, 0.0],
            bind(
                "q",
                quad_ty(),
                quad_layout(),
                made(),
                set("u", store_quad("out", n(0), "q"), reads),
            ),
        ),
    );
    assert_eq!(run_f64(&stored), 46.0);

    let taken = lets(
        vec![
            ("make", fun(int_ty(), quad_ty()), handle(), maker(4.0, 5.0, 6.0, 7.0)),
            as_quad("r", made()),
            narrow("z", lane_of("r", 2)),
        ],
        from_f32("z"),
    );
    assert_eq!(run_f64(&taken), 6.0);
}

#[test]
fn float_bits_survive_tuples_and_closure_captures() {
    let field = |slot: usize| Comp::Proj { tup: v("t"), slot, layout: cell(), ty: float() };
    let tuple = lets(
        vec![
            held(
                "t",
                Comp::Tuple(vec![
                    Field { value: f(1.5), layout: cell() },
                    Field { value: f(2.25), layout: cell() },
                ]),
            ),
            wide("a", field(0)),
            wide("b", field(1)),
        ],
        fadd(v("a"), v("b")),
    );
    assert_eq!(run_f64(&tuple), 3.75);
    let closure = lets(
        vec![
            wide("x", Comp::Atom(f(1.5))),
            (
                "f",
                fun(float(), float()),
                handle(),
                lam_of("y", float(), cell(), float(), ret(fadd(v("x"), v("y")))),
            ),
        ],
        Comp::App {
            fun: v("f"),
            arg: f(2.25),
            arg_ty: float(),
            ret_ty: float(),
            ret_layout: cell(),
        },
    );
    assert_eq!(run_f64(&closure), 3.75);
}

#[test]
fn jits_fixed_signature_float_externs() {
    let added = Comp::Foreign(
        "locus_fp64_add".to_string(),
        vec![f(1.5), f(2.25)],
        ExternAbi { params: vec![Width::F64, Width::F64], ret: Width::F64 },
    );
    assert_eq!(run_f64(&ret(added)), 3.75);
    let mixed = Comp::Foreign(
        "locus_fp64_add_i64".to_string(),
        vec![f(1.5), n(2)],
        ExternAbi { params: vec![Width::F64, Width::W64], ret: Width::F64 },
    );
    assert_eq!(run_f64(&ret(mixed)), 3.5);
}

#[test]
fn jits_fixed_signature_float32_externs() {
    let ir = lets(
        vec![narrow("x", to_f32(1.25))],
        Comp::Foreign(
            "locus_fp32_id".to_string(),
            vec![v("x")],
            ExternAbi { params: vec![Width::F32], ret: Width::F32 },
        ),
    );
    assert_eq!(f32::from_bits(run(&ir) as u32), 1.25);
}

#[test]
fn jits_float32_arrays_with_packed_stride() {
    let element = |i: i64| Comp::ArrayGet {
        arr: v("a"),
        idx: n(i),
        elem_layout: packed_float(),
        elem_ty: float32(),
    };
    let rest = lets(
        vec![
            narrow("new", to_f32(4.5)),
            ("_", int_ty(), cell(), Comp::ArraySet {
                arr: v("a"),
                idx: n(1),
                val: v("new"),
                elem_layout: packed_float(),
            }),
            narrow("e0", element(0)),
            narrow("e1", element(1)),
            narrow("e2", element(2)),
            wide("w0", from_f32("e0")),
            wide("w1", from_f32("e1")),
            wide("w2", from_f32("e2")),
            wide("s", fadd(v("w0"), v("w1"))),
        ],
        fadd(v("s"), v("w2")),
    );
    assert_eq!(run_f64(&with_floats("a", &[1.25, 2.5, 3.75], rest)), 9.5);
}

// ── the world ────────────────────────────────────────────────────────────
#[test]
fn a_foreign_call_passes_its_arguments() {
    let ir = ret(Comp::Foreign(
        "SetConsoleCP".to_string(),
        vec![n(65001)],
        ExternAbi { params: vec![Width::U32], ret: Width::I32 },
    ));
    let m = lowered(&ir);
    assert!(m
        .script
        .iter()
        .any(|c| matches!(c, Cmd::Declare { name, ret: Ty::I32 } if name == "SetConsoleCP")));
    let mut machine = Machine::new(&m);
    let main = machine.entry();
    assert_eq!(machine.call(main, vec![]), Ok(V::W(0)));
    assert_eq!(machine.foreign, vec![("SetConsoleCP".to_string(), vec![65001])]);
}

#[test]
fn a_string_is_its_utf16_units() {
    // let s = "aé𝄞" in len s / each unit
    let unit = |i: i64| {
        let layout = ValueLayout::scalar_bytes(2, 2);
        Ir::Let {
            name: "s".to_string(),
            ty: Rc::new(Type::Str),
            layout: handle(),
            row: gc(),
            comp: Rc::new(Comp::Atom(Atom::Str("aé𝄞".to_string()))),
            rest: Rc::new(ret(if i < 0 {
                Comp::Len(v("s"))
            } else {
                Comp::ArrayGet { arr: v("s"), idx: n(i), elem_layout: layout, elem_ty: int_ty() }
            })),
        }
    };
    let units: Vec<u16> = "aé𝄞".encode_utf16().collect();
    assert_eq!(run(&unit(-1)), units.len() as i64);
    for (i, u) in units.iter().enumerate() {
        assert_eq!(run(&unit(i as i64)), *u as i64);
    }
}

// ── modules ──────────────────────────────────────────────────────────────
#[test]
fn a_program_opens_a_heap_scope_just_when_it_needs_one() {
    assert!(!calls(&lowered(&counting()), "locus_gc_enter"));
    assert!(calls(&lowered(&with_array("a", &[1], ret(get("a", n(0))))), "locus_gc_enter"));
    assert!(calls(&emit_module(&counting(), true).unwrap(), "locus_gc_enter"));
}

#[test]
fn a_library_has_its_exports_and_no_entry() {
    let export = LibExport {
        symbol: "twice".to_string(),
        params: vec![Param { name: "x".to_string(), ty: int_ty(), layout: cell() }],
        ret_ty: int_ty(),
        body: ret(bin(BinOp::Mul, v("x"), n(2))),
    };
    let m = emit_library_module(&vec![export], false).unwrap();
    assert_eq!(m.name, "locus_lib");
    assert!(!m.script.iter().any(|c| matches!(c, Cmd::Func { name: FuncName::Main, .. })));
    let at = m
        .script
        .iter()
        .position(|c| matches!(c, Cmd::Func { name: FuncName::Export(s), .. } if s == "twice"))
        .expect("the export is there") as u64;
    let mut machine = Machine::new(&m);
    assert_eq!(machine.call(at, vec![V::W(21)]), Ok(V::W(42)));
}

#[test]
fn an_export_builds_closures_and_calls_them() {
    // fn x y: let f = fn a => a * x in let s = f y in s + 1
    let cell_param = |name: &str| Param { name: name.to_string(), ty: int_ty(), layout: cell() };
    let export = LibExport {
        symbol: "scaled".to_string(),
        params: vec![cell_param("x"), cell_param("y")],
        ret_ty: int_ty(),
        body: bind(
            "f",
            fun(int_ty(), int_ty()),
            cell(),
            lam("a", int_ty(), ret(bin(BinOp::Mul, v("a"), v("x")))),
            set("s", app(v("f"), v("y")), ret(bin(BinOp::Add, v("s"), n(1)))),
        ),
    };
    let m = emit_library_module(&vec![export], false).unwrap();
    let at = m
        .script
        .iter()
        .position(|c| matches!(c, Cmd::Func { name: FuncName::Export(s), .. } if s == "scaled"))
        .expect("the export is there") as u64;
    let mut machine = Machine::new(&m);
    assert_eq!(machine.call(at, vec![V::W(6), V::W(7)]), Ok(V::W(43)));
}

#[test]
fn a_flat_block_is_lowered_like_nested_lets() {
    let flat = Ir::Block {
        binds: vec![IrBind {
            name: "x".to_string(),
            ty: int_ty(),
            layout: cell(),
            row: pure(),
            comp: Rc::new(bin(BinOp::Add, n(1), n(2))),
        }],
        row: pure(),
        comp: Rc::new(bin(BinOp::Mul, v("x"), n(5))),
    };
    let nested = set("x", bin(BinOp::Add, n(1), n(2)), ret(bin(BinOp::Mul, v("x"), n(5))));
    assert_eq!(format!("{:?}", lowered(&flat).script), format!("{:?}", lowered(&nested).script));
    assert_eq!(run(&flat), 15);
}

#[test]
fn a_variable_that_is_not_bound_is_an_error() {
    let e = emit_module(&give(v("nowhere")), false).unwrap_err();
    assert!(e.contains("nowhere"), "{e}");
}

#[test]
fn code_values_do_not_reach_the_back_end() {
    for comp in [
        Comp::Quote(Rc::new(give(n(1)))),
        Comp::Splice(n(1)),
        Comp::Genlet(n(1)),
    ] {
        assert!(emit_module(&ret(comp), false).is_err());
    }
}
