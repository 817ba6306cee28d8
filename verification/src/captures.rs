//! The cells of a closure: reserved slots in front, then what it captures.
//!
//! Scalar slots 0, 1 and 2 hold the curried entry, the uncurried entry and the
//! arity of that entry; captures follow. In a managed closure the traced
//! captures have pointer slots of their own.
use crate::error::{CodegenError, Context};
use crate::heap::{agrees_cells, vector_ty, vector_type, Cells};
use crate::ir::{share, Type, ValueLayout};
use crate::layout::{capture_cells, captured_cells, CaptureInfo};
use crate::simd::vector_of;
use crate::state::{agrees, agrees_unit, Cg, Out, St};
use crate::target::{const_cell, constant, Cmd, Ty, Val};
use std::rc::Rc;
use vstd::prelude::*;

verus! {

/// How many reserved slots a closure has.
pub const RESERVED: u64 = 3;

/// The cells that a captured value of this layout takes.
pub open spec fn cells_of(layout: ValueLayout) -> nat {
    if layout.single_pointer() {
        1
    } else {
        layout.scalar_cells as nat
    }
}

/// The traced captures among the first `n`.
pub open spec fn traced_before(infos: Seq<CaptureInfo>, n: nat) -> nat
    decreases n,
{
    if n == 0 || n > infos.len() {
        0
    } else {
        traced_before(infos, (n - 1) as nat) + if infos[n - 1].layout.single_pointer() {
            1nat
        } else {
            0nat
        }
    }
}

/// The untraced cells of the first `n` captures.
pub open spec fn untraced_before(infos: Seq<CaptureInfo>, n: nat) -> nat
    decreases n,
{
    if n == 0 || n > infos.len() {
        0
    } else {
        untraced_before(infos, (n - 1) as nat) + if infos[n - 1].layout.single_pointer() {
            0nat
        } else {
            cells_of(infos[n - 1].layout)
        }
    }
}

/// The cells of the first `n` captures.
pub open spec fn cells_before(infos: Seq<CaptureInfo>, n: nat) -> nat
    decreases n,
{
    if n == 0 || n > infos.len() {
        0
    } else {
        cells_before(infos, (n - 1) as nat) + cells_of(infos[n - 1].layout)
    }
}

/// The slots of a capture behind those of the captures before it.
pub open spec fn placed(name: String, ty: Rc<Type>, layout: ValueLayout, before: Seq<CaptureInfo>) -> CaptureInfo {
    CaptureInfo {
        name,
        ty,
        layout,
        gc_slot: if layout.single_pointer() {
            traced_before(before, before.len()) as u64
        } else {
            (RESERVED + untraced_before(before, before.len())) as u64
        },
        raw_slot: (RESERVED + cells_before(before, before.len())) as u64,
    }
}

proof fn lemma_prefix(infos: Seq<CaptureInfo>, x: CaptureInfo, n: nat)
    requires
        n <= infos.len(),
    ensures
        traced_before(infos.push(x), n) == traced_before(infos, n),
        untraced_before(infos.push(x), n) == untraced_before(infos, n),
        cells_before(infos.push(x), n) == cells_before(infos, n),
    decreases n,
{
    if n > 0 {
        lemma_prefix(infos, x, (n - 1) as nat);
    }
}

proof fn lemma_totals(infos: Seq<CaptureInfo>, n: nat)
    requires
        n <= infos.len(),
    ensures
        traced_before(infos, n) + untraced_before(infos, n) == cells_before(infos, n),
    decreases n,
{
    if n > 0 {
        lemma_totals(infos, (n - 1) as nat);
    }
}

proof fn lemma_monotone(infos: Seq<CaptureInfo>, i: nat, j: nat)
    requires
        i <= j <= infos.len(),
    ensures
        traced_before(infos, i) <= traced_before(infos, j),
        untraced_before(infos, i) <= untraced_before(infos, j),
        cells_before(infos, i) <= cells_before(infos, j),
    decreases j,
{
    if i < j {
        lemma_monotone(infos, i, (j - 1) as nat);
    }
}

/// Every capture sits right behind those before it.
pub open spec fn packed(infos: Seq<CaptureInfo>) -> bool {
    forall|i: int|
        0 <= i < infos.len() ==> {
            let c = #[trigger] infos[i];
            &&& c.gc_slot == if c.layout.single_pointer() {
                traced_before(infos, i as nat) as int
            } else {
                RESERVED + untraced_before(infos, i as nat)
            }
            &&& c.raw_slot == RESERVED + cells_before(infos, i as nat)
        }
}

/// In a packed closure no two captures share a cell, none touches a reserved
/// slot, and all lie inside the closure: in the block outside the managed heap,
/// and by region in the managed one.
pub proof fn captures_are_disjoint(infos: Seq<CaptureInfo>, i: int, j: int)
    requires
        packed(infos),
        0 <= i < j < infos.len(),
    ensures
        RESERVED <= infos[i].raw_slot,
        infos[i].raw_slot + cells_of(infos[i].layout) <= infos[j].raw_slot,
        infos[j].raw_slot + cells_of(infos[j].layout) <= RESERVED + cells_before(
            infos,
            infos.len(),
        ),
        (infos[i].layout.single_pointer() && infos[j].layout.single_pointer()) ==> infos[i].gc_slot
            < infos[j].gc_slot < traced_before(infos, infos.len()),
        (!infos[i].layout.single_pointer() && !infos[j].layout.single_pointer()) ==> RESERVED
            <= infos[i].gc_slot && infos[i].gc_slot + cells_of(infos[i].layout) <= infos[j].gc_slot
            && infos[j].gc_slot + cells_of(infos[j].layout) <= RESERVED + untraced_before(
            infos,
            infos.len(),
        ),
{
    lemma_monotone(infos, (i + 1) as nat, j as nat);
    lemma_monotone(infos, (j + 1) as nat, infos.len());
}

impl St {
    /// The type and layout of a captured variable: a function's own name is a
    /// handle to itself.
    pub open spec fn captured_var(self, own: Option<String>, own_ty: Rc<Type>, name: String) -> Result<
        (Rc<Type>, ValueLayout),
        CodegenError,
    > {
        if own matches Some(s) && s@ == name@ {
            Ok((own_ty, ValueLayout::pointer_cell_layout()))
        } else {
            match self.cx.env.get(name@) {
                None => Err(CodegenError::UnboundCapture(name)),
                Some(v) => Ok((v.ty, v.layout)),
            }
        }
    }

    /// The captures from position `i` on, behind those already placed.
    pub open spec fn place_captures(
        self,
        own: Option<String>,
        own_ty: Rc<Type>,
        names: Seq<String>,
        i: nat,
        done: Seq<CaptureInfo>,
    ) -> Result<Seq<CaptureInfo>, CodegenError>
        decreases names.len() - i,
    {
        if i >= names.len() {
            Ok(done)
        } else {
            match self.captured_var(own, own_ty, names[i as int]) {
                Err(e) => Err(e),
                Ok((ty, layout)) => match captured_cells(
                    layout,
                    Context::Captured(names[i as int]),
                ) {
                    Err(e) => Err(e),
                    Ok(cells) => if RESERVED + cells_before(done, done.len()) + cells > u64::MAX {
                        Err(CodegenError::TooManyCells)
                    } else {
                        self.place_captures(
                            own,
                            own_ty,
                            names,
                            i + 1,
                            done.push(placed(names[i as int], ty, layout, done)),
                        )
                    },
                },
            }
        }
    }

    // ── captured values as cells ─────────────────────────────────────────
    /// The words of a captured value.
    pub open spec fn capture_words(self, v: Val, ty: Rc<Type>, layout: ValueLayout, name: String) -> Cells {
        match *ty {
            Type::Mask(shape) => match vector_of(v, "captured mask") {
                Err(e) => Err(e),
                Ok(v) => {
                    let (st, cell) = self.pack_lanes(v, shape.lane_count());
                    Ok((st, seq![cell]))
                },
            },
            _ => if v.ty is I64 {
                Ok((self, seq![v]))
            } else if v.ty.is_vector() && layout.scalar_only() {
                let (st, ptr) = self.def(Cmd::Alloca { ty: v.ty, label: "capture.spill" }, Ty::Ptr);
                let st = st.store(ptr, v);
                Ok(
                    st.read_cells(
                        ptr,
                        layout.scalar_cells as nat,
                        "capture.spill.slot",
                        "capture.spill.cell",
                    ),
                )
            } else {
                Err(CodegenError::CaptureValue(name))
            },
        }
    }

    /// The captured value that the words make up.
    pub open spec fn capture_value(
        self,
        ty: Rc<Type>,
        layout: ValueLayout,
        words: Seq<Val>,
        name: String,
    ) -> Out {
        match *ty {
            Type::Mask(shape) => if words.len() == 0 {
                Err(CodegenError::MissingMaskCell(name))
            } else {
                Ok(self.unpack_lanes(words[0], shape, shape.lane_count()))
            },
            Type::Vector(shape, elem) => match vector_ty(shape, elem) {
                Err(e) => Err(e),
                Ok(vt) => match captured_cells(layout, Context::Captured(name)) {
                    Err(e) => Err(e),
                    Ok(expected) => if words.len() != expected {
                        Err(CodegenError::CaptureCount(name, expected, words.len() as usize))
                    } else {
                        let (st, ptr) = self.def(
                            Cmd::Alloca { ty: vt, label: "capture.reload" },
                            Ty::Ptr,
                        );
                        let st = st.write_cells(ptr, words, words.len(), "capture.reload.slot");
                        Ok(st.load(vt, ptr, "capture.reload.vec"))
                    },
                },
            },
            _ => if words.len() == 0 {
                Err(CodegenError::MissingCell(name))
            } else {
                Ok((self, words[0]))
            },
        }
    }

    /// Read `n` cells of a closure block from slot `base` on.
    pub open spec fn block_words(self, block: Val, base: nat, n: nat) -> (St, Seq<Val>)
        decreases n,
    {
        if n == 0 {
            (self, Seq::empty())
        } else {
            let (st, words) = self.block_words(block, base, (n - 1) as nat);
            let (st, p) = st.gep(Ty::I64, block, constant((base + n - 1) as u64), "cap.slot");
            let (st, v) = st.load(Ty::I64, p, "cap");
            (st, words.push(v))
        }
    }

    /// Write the first `n` words to a closure block from slot `base` on.
    pub open spec fn set_block_words(self, block: Val, base: nat, words: Seq<Val>, n: nat) -> St
        decreases n,
    {
        if n == 0 {
            self
        } else {
            let st = self.set_block_words(block, base, words, (n - 1) as nat);
            let (st, p) = st.gep(Ty::I64, block, constant((base + n - 1) as u64), "cap.store");
            st.store(p, words[n - 1])
        }
    }

    /// One capture, read from the environment that a function was passed.
    pub open spec fn load_capture(self, env: Val, cap: CaptureInfo) -> Out {
        if self.cx.gc {
            if cap.layout.single_pointer() {
                Ok(self.gc_get_traced(env, cap.gc_slot, cap.layout.word))
            } else if cap.gc_slot + cells_of(cap.layout) > u64::MAX {
                Err(CodegenError::TooManyCells)
            } else {
                let (st, words) = self.get_words(env, cap.gc_slot as nat, cells_of(cap.layout));
                st.capture_value(cap.ty, cap.layout, words, cap.name)
            }
        } else if cap.raw_slot + cells_of(cap.layout) > u64::MAX {
            Err(CodegenError::TooManyCells)
        } else {
            let (st, words) = self.block_words(env, cap.raw_slot as nat, cells_of(cap.layout));
            st.capture_value(cap.ty, cap.layout, words, cap.name)
        }
    }

    /// Bind the captures from position `i` on.
    pub open spec fn load_captures(self, env: Val, caps: Seq<CaptureInfo>, i: nat) -> Result<
        St,
        CodegenError,
    >
        decreases caps.len() - i,
    {
        if i >= caps.len() {
            Ok(self)
        } else {
            match self.load_capture(env, caps[i as int]) {
                Err(e) => Err(e),
                Ok((st, v)) => st.bind(
                    caps[i as int].name,
                    v,
                    caps[i as int].ty,
                    caps[i as int].layout,
                ).load_captures(env, caps, i + 1),
            }
        }
    }

    /// Store one capture into a new closure.
    pub open spec fn store_capture(self, clos: Val, cap: CaptureInfo) -> Result<St, CodegenError> {
        match self.cx.env.get(cap.name@) {
            None => Err(CodegenError::UnboundCapture(cap.name)),
            Some(var) => if self.cx.gc && cap.layout.single_pointer() {
                if var.value.ty is I64 {
                    Ok(self.gc_set_traced(clos, cap.gc_slot, var.value, cap.layout.word))
                } else {
                    Err(CodegenError::CaptureNotACell(cap.name))
                }
            } else {
                match self.capture_words(var.value, cap.ty, cap.layout, cap.name) {
                    Err(e) => Err(e),
                    Ok((st, words)) => if self.cx.gc {
                        if cap.gc_slot + words.len() > u64::MAX {
                            Err(CodegenError::TooManyCells)
                        } else {
                            Ok(st.set_words(clos, cap.gc_slot as nat, words, words.len()))
                        }
                    } else if cap.raw_slot + words.len() > u64::MAX {
                        Err(CodegenError::TooManyCells)
                    } else {
                        Ok(st.set_block_words(clos, cap.raw_slot as nat, words, words.len()))
                    },
                }
            },
        }
    }

    /// Store the captures from position `i` on.
    pub open spec fn store_captures(self, clos: Val, caps: Seq<CaptureInfo>, i: nat) -> Result<
        St,
        CodegenError,
    >
        decreases caps.len() - i,
    {
        if i >= caps.len() {
            Ok(self)
        } else {
            match self.store_capture(clos, caps[i as int]) {
                Err(e) => Err(e),
                Ok(st) => st.store_captures(clos, caps, i + 1),
            }
        }
    }
}

/// The captures that the code generator places are packed.
pub proof fn placed_captures_are_packed(
    st: St,
    own: Option<String>,
    own_ty: Rc<Type>,
    names: Seq<String>,
    i: nat,
    done: Seq<CaptureInfo>,
)
    requires
        packed(done),
        RESERVED + cells_before(done, done.len()) <= u64::MAX,
    ensures
        st.place_captures(own, own_ty, names, i, done) matches Ok(infos) ==> packed(infos)
            && RESERVED + cells_before(infos, infos.len()) <= u64::MAX,
    decreases names.len() - i,
{
    if i < names.len() {
        if let Ok((ty, layout)) = st.captured_var(own, own_ty, names[i as int]) {
            if let Ok(cells) = captured_cells(layout, Context::Captured(names[i as int])) {
                if RESERVED + cells_before(done, done.len()) + cells <= u64::MAX {
                    let c = placed(names[i as int], ty, layout, done);
                    let next = done.push(c);
                    lemma_totals(done, done.len());
                    assert forall|k: int| 0 <= k < next.len() implies ({
                        let c = #[trigger] next[k];
                        &&& c.gc_slot == if c.layout.single_pointer() {
                            traced_before(next, k as nat) as int
                        } else {
                            RESERVED + untraced_before(next, k as nat)
                        }
                        &&& c.raw_slot == RESERVED + cells_before(next, k as nat)
                    }) by {
                        lemma_prefix(done, c, k as nat);
                        if k < done.len() {
                            assert(next[k] == done[k]);
                        }
                    }
                    lemma_prefix(done, c, done.len());
                    placed_captures_are_packed(st, own, own_ty, names, i + 1, next);
                }
            }
        }
    }
}

impl Cg {
    fn captured_var(&self, own: &Option<String>, own_ty: &Rc<Type>, name: &String) -> (r: Result<
        (Rc<Type>, ValueLayout),
        CodegenError,
    >)
        ensures
            r == self@.captured_var(*own, *own_ty, *name),
    {
        if let Some(s) = own {
            if *s == *name {
                return Ok((share(own_ty), ValueLayout::pointer_cell()));
            }
        }
        match self.cx.env.find(name) {
            None => Err(CodegenError::UnboundCapture(name.clone())),
            Some(v) => Ok((share(&v.ty), v.layout)),
        }
    }

    /// The captures and their slots.
    pub(crate) fn capture_layout(
        &self,
        own: &Option<String>,
        own_ty: &Rc<Type>,
        names: &Vec<String>,
    ) -> (r: Result<Vec<CaptureInfo>, CodegenError>)
        ensures
            match self@.place_captures(*own, *own_ty, names@, 0, Seq::empty()) {
                Ok(infos) => r is Ok && r->Ok_0@ == infos && packed(infos) && RESERVED
                    + cells_before(infos, infos.len()) <= u64::MAX,
                Err(e) => r == Err::<Vec<CaptureInfo>, CodegenError>(e),
            },
    {
        let mut done: Vec<CaptureInfo> = Vec::new();
        let mut traced: u64 = 0;
        let mut untraced: u64 = RESERVED;
        let mut raw: u64 = RESERVED;
        let mut i: usize = 0;
        proof {
            placed_captures_are_packed(self@, *own, *own_ty, names@, 0, Seq::empty());
            assert(done@ =~= Seq::empty());
        }
        while i < names.len()
            invariant
                i <= names.len(),
                traced == traced_before(done@, done@.len()),
                untraced == RESERVED + untraced_before(done@, done@.len()),
                raw == RESERVED + cells_before(done@, done@.len()),
                self@.place_captures(*own, *own_ty, names@, i as nat, done@)
                    == self@.place_captures(*own, *own_ty, names@, 0, Seq::empty()),
            decreases names.len() - i,
        {
            let (ty, layout) = match self.captured_var(own, own_ty, &names[i]) {
                Err(e) => {
                    return Err(e);
                },
                Ok(var) => var,
            };
            let cells: u64 = match capture_cells(layout, Context::Captured(names[i].clone())) {
                Err(e) => {
                    return Err(e);
                },
                Ok(cells) => cells,
            };
            let next: u64 = match raw.checked_add(cells) {
                None => {
                    return Err(CodegenError::TooManyCells);
                },
                Some(n) => n,
            };
            let pointer = layout.is_single_pointer_cell();
            let info = CaptureInfo {
                name: names[i].clone(),
                ty,
                layout,
                gc_slot: if pointer {
                    traced
                } else {
                    untraced
                },
                raw_slot: raw,
            };
            proof {
                lemma_totals(done@, done@.len());
                lemma_prefix(done@, info, done@.len());
            }
            done.push(info);
            if pointer {
                traced = traced + 1;
            } else {
                untraced = untraced + cells;
            }
            raw = next;
            i = i + 1;
        }
        Ok(done)
    }

    /// The words of a captured value.
    fn value_to_capture_cells(&mut self, v: Val, ty: &Rc<Type>, layout: ValueLayout, name: &String) -> (r: Result<
        Vec<Val>,
        CodegenError,
    >)
        ensures
            agrees_cells(old(self)@.capture_words(v, *ty, layout, *name), final(self)@, r),
    {
        if let Type::Mask(shape) = &**ty {
            match v.ty {
                Ty::VecF32(_) | Ty::VecF64(_) | Ty::Mask(_) => {},
                _ => {
                    return Err(CodegenError::NotAVector("captured mask"));
                },
            }
            let cell = self.pack_mask_to_cell(v, *shape);
            let mut out: Vec<Val> = Vec::new();
            out.push(cell);
            assert(out@ =~= seq![cell]);
            return Ok(out);
        }
        match v.ty {
            Ty::I64 => {
                let mut out: Vec<Val> = Vec::new();
                out.push(v);
                assert(out@ =~= seq![v]);
                Ok(out)
            },
            Ty::VecF32(_) | Ty::VecF64(_) | Ty::Mask(_) => {
                if layout.is_scalar_only() {
                    let ptr = self.def(
                        Cmd::Alloca { ty: v.ty, label: "capture.spill" },
                        Ty::Ptr,
                    );
                    self.store(ptr, v);
                    Ok(
                        self.read_cells(
                            ptr,
                            layout.scalar_cells as u64,
                            "capture.spill.slot",
                            "capture.spill.cell",
                        ),
                    )
                } else {
                    Err(CodegenError::CaptureValue(name.clone()))
                }
            },
            _ => Err(CodegenError::CaptureValue(name.clone())),
        }
    }

    /// The captured value that the words make up.
    fn capture_cells_to_value(
        &mut self,
        ty: &Rc<Type>,
        layout: ValueLayout,
        words: &Vec<Val>,
        name: &String,
    ) -> (r: Result<Val, CodegenError>)
        ensures
            agrees(old(self)@.capture_value(*ty, layout, words@, *name), final(self)@, r),
    {
        match &**ty {
            Type::Mask(shape) => {
                if words.len() == 0 {
                    Err(CodegenError::MissingMaskCell(name.clone()))
                } else {
                    Ok(self.unpack_mask_from_cell(words[0], *shape))
                }
            },
            Type::Vector(shape, elem) => {
                let vt = match vector_type(*shape, elem) {
                    Err(e) => {
                        return Err(e);
                    },
                    Ok(vt) => vt,
                };
                let expected: u64 = match capture_cells(layout, Context::Captured(name.clone())) {
                    Err(e) => {
                        return Err(e);
                    },
                    Ok(n) => n,
                };
                if words.len() as u64 != expected {
                    return Err(CodegenError::CaptureCount(name.clone(), expected, words.len()));
                }
                let ptr = self.def(Cmd::Alloca { ty: vt, label: "capture.reload" }, Ty::Ptr);
                self.write_cells(ptr, words, "capture.reload.slot");
                Ok(self.load(vt, ptr, "capture.reload.vec"))
            },
            _ => {
                if words.len() == 0 {
                    Err(CodegenError::MissingCell(name.clone()))
                } else {
                    Ok(words[0])
                }
            },
        }
    }

    fn block_words(&mut self, block: Val, base: u64, n: u64) -> (r: Vec<Val>)
        requires
            base + n <= u64::MAX,
        ensures
            (final(self)@, r@) == old(self)@.block_words(block, base as nat, n as nat),
    {
        let mut out: Vec<Val> = Vec::new();
        let mut k: u64 = 0;
        while k < n
            invariant
                k <= n,
                base + n <= u64::MAX,
                (self@, out@) == old(self)@.block_words(block, base as nat, k as nat),
            decreases n - k,
        {
            let p = self.gep(Ty::I64, block, const_cell(base + k), "cap.slot");
            let v = self.load(Ty::I64, p, "cap");
            out.push(v);
            k = k + 1;
        }
        out
    }

    fn set_block_words(&mut self, block: Val, base: u64, words: &Vec<Val>)
        requires
            base + words@.len() <= u64::MAX,
        ensures
            final(self)@ == old(self)@.set_block_words(block, base as nat, words@, words@.len()),
    {
        let mut k: usize = 0;
        while k < words.len()
            invariant
                k <= words.len(),
                base + words@.len() <= u64::MAX,
                self@ == old(self)@.set_block_words(block, base as nat, words@, k as nat),
            decreases words.len() - k,
        {
            let p = self.gep(Ty::I64, block, const_cell(base + k as u64), "cap.store");
            self.store(p, words[k]);
            k = k + 1;
        }
    }

    fn load_capture(&mut self, env: Val, cap: &CaptureInfo) -> (r: Result<Val, CodegenError>)
        ensures
            agrees(old(self)@.load_capture(env, *cap), final(self)@, r),
    {
        let pointer = cap.layout.is_single_pointer_cell();
        let cells: u64 = if pointer {
            1
        } else {
            cap.layout.scalar_cells as u64
        };
        let words = if self.cx.gc {
            if pointer {
                return Ok(self.gc_get_traced(env, cap.gc_slot, cap.layout.word));
            }
            match cap.gc_slot.checked_add(cells) {
                None => {
                    return Err(CodegenError::TooManyCells);
                },
                Some(_) => {},
            }
            self.get_words(env, cap.gc_slot, cells)
        } else {
            match cap.raw_slot.checked_add(cells) {
                None => {
                    return Err(CodegenError::TooManyCells);
                },
                Some(_) => {},
            }
            self.block_words(env, cap.raw_slot, cells)
        };
        self.capture_cells_to_value(&cap.ty, cap.layout, &words, &cap.name)
    }

    /// Bind a function's captures, read from the environment it was passed.
    pub(crate) fn load_captures_into_env(&mut self, env: Val, caps: &Vec<CaptureInfo>) -> (r: Result<
        (),
        CodegenError,
    >)
        ensures
            agrees_unit(old(self)@.load_captures(env, caps@, 0), final(self)@, r),
    {
        let mut i: usize = 0;
        while i < caps.len()
            invariant
                i <= caps.len(),
                self@.load_captures(env, caps@, i as nat) == old(self)@.load_captures(
                    env,
                    caps@,
                    0,
                ),
            decreases caps.len() - i,
        {
            match self.load_capture(env, &caps[i]) {
                Err(e) => {
                    return Err(e);
                },
                Ok(v) => {
                    let ty = share(&caps[i].ty);
                    self.bind(&caps[i].name, v, ty, caps[i].layout);
                },
            }
            i = i + 1;
        }
        Ok(())
    }

    fn store_capture(&mut self, clos: Val, cap: &CaptureInfo) -> (r: Result<(), CodegenError>)
        ensures
            agrees_unit(old(self)@.store_capture(clos, *cap), final(self)@, r),
    {
        let value = match self.cx.env.find(&cap.name) {
            None => {
                return Err(CodegenError::UnboundCapture(cap.name.clone()));
            },
            Some(var) => var.value,
        };
        if self.cx.gc && cap.layout.is_single_pointer_cell() {
            return match value.ty {
                Ty::I64 => {
                    self.gc_set_traced(clos, cap.gc_slot, value, cap.layout.word);
                    Ok(())
                },
                _ => Err(CodegenError::CaptureNotACell(cap.name.clone())),
            };
        }
        let gc = self.cx.gc;
        let words = match self.value_to_capture_cells(value, &cap.ty, cap.layout, &cap.name) {
            Err(e) => {
                return Err(e);
            },
            Ok(words) => words,
        };
        let n: u64 = words.len() as u64;
        if gc {
            match cap.gc_slot.checked_add(n) {
                None => Err(CodegenError::TooManyCells),
                Some(_) => {
                    self.set_words(clos, cap.gc_slot, &words);
                    Ok(())
                },
            }
        } else {
            match cap.raw_slot.checked_add(n) {
                None => Err(CodegenError::TooManyCells),
                Some(_) => {
                    self.set_block_words(clos, cap.raw_slot, &words);
                    Ok(())
                },
            }
        }
    }

    /// Store the captures into a new closure.
    pub(crate) fn store_captures(&mut self, clos: Val, caps: &Vec<CaptureInfo>) -> (r: Result<
        (),
        CodegenError,
    >)
        ensures
            agrees_unit(old(self)@.store_captures(clos, caps@, 0), final(self)@, r),
    {
        let mut i: usize = 0;
        while i < caps.len()
            invariant
                i <= caps.len(),
                self@.store_captures(clos, caps@, i as nat) == old(self)@.store_captures(
                    clos,
                    caps@,
                    0,
                ),
            decreases caps.len() - i,
        {
            match self.store_capture(clos, &caps[i]) {
                Err(e) => {
                    return Err(e);
                },
                Ok(()) => {},
            }
            i = i + 1;
        }
        Ok(())
    }

    /// The traced captures, the untraced cells and all cells of a closure.
    pub(crate) fn closure_cells(caps: &Vec<CaptureInfo>) -> (r: (u64, u64, u64))
        requires
            RESERVED + cells_before(caps@, caps@.len()) <= u64::MAX,
        ensures
            r.0 == traced_before(caps@, caps@.len()),
            r.1 == RESERVED + untraced_before(caps@, caps@.len()),
            r.2 == RESERVED + cells_before(caps@, caps@.len()),
    {
        let mut traced: u64 = 0;
        let mut untraced: u64 = RESERVED;
        let mut raw: u64 = RESERVED;
        let mut i: usize = 0;
        while i < caps.len()
            invariant
                i <= caps.len(),
                RESERVED + cells_before(caps@, caps@.len()) <= u64::MAX,
                traced == traced_before(caps@, i as nat),
                untraced == RESERVED + untraced_before(caps@, i as nat),
                raw == RESERVED + cells_before(caps@, i as nat),
            decreases caps.len() - i,
        {
            proof {
                lemma_monotone(caps@, (i + 1) as nat, caps@.len());
                lemma_totals(caps@, (i + 1) as nat);
            }
            if caps[i].layout.is_single_pointer_cell() {
                traced = traced + 1;
                raw = raw + 1;
            } else {
                let cells: u64 = caps[i].layout.scalar_cells as u64;
                untraced = untraced + cells;
                raw = raw + cells;
            }
            i = i + 1;
        }
        (traced, untraced, raw)
    }
}

} // verus!
