//! Managed objects and arrays, and the operands of every computation.
use crate::error::{CodegenError, Context};
use crate::ir::{cells_for, share, Atom, Type, VectorShape};
use crate::state::{agrees, agrees_unit, cell_of, expect_cell, Cg, Out, St};
use crate::target::{const_cell, constant, Cmd, Ty, Val};
use crate::utf16::{encode_utf16, utf16};
use std::rc::Rc;
use vstd::prelude::*;

verus! {

// ── vector types ─────────────────────────────────────────────────────────
/// The class of a vector of `elem` lanes.
pub open spec fn vector_ty(shape: VectorShape, elem: Rc<Type>) -> Result<Ty, CodegenError> {
    match *elem {
        Type::Float32 => Ok(Ty::VecF32(shape.lane_count() as u32)),
        Type::Float => Ok(Ty::VecF64(shape.lane_count() as u32)),
        _ => Err(CodegenError::VectorElem(shape, elem)),
    }
}

/// The class of a vector of `elem` lanes.
pub fn vector_type(shape: VectorShape, elem: &Rc<Type>) -> (r: Result<Ty, CodegenError>)
    ensures
        r == vector_ty(shape, *elem),
{
    match &**elem {
        Type::Float32 => Ok(Ty::VecF32(shape.lanes() as u32)),
        Type::Float => Ok(Ty::VecF64(shape.lanes() as u32)),
        _ => Err(CodegenError::VectorElem(shape, share(elem))),
    }
}

/// What reading several cells gives.
pub type Cells = Result<(St, Seq<Val>), CodegenError>;

/// The exec result and state are those of the outcome.
pub open spec fn agrees_cells(out: Cells, st: St, r: Result<Vec<Val>, CodegenError>) -> bool {
    match out {
        Ok((s, vs)) => st == s && r is Ok && r->Ok_0@ == vs,
        Err(e) => r == Err::<Vec<Val>, CodegenError>(e),
    }
}

impl St {
    // ── calls of the collector ───────────────────────────────────────────
    pub open spec fn gc_alloc(self, pointers: u64, scalars: u64) -> (St, Val) {
        self.arg(constant(pointers)).arg(constant(scalars)).call(
            "locus_gc_alloc",
            Ty::I64,
            "locus_gc_alloc",
        )
    }

    pub open spec fn gc_set_scalar(self, obj: Val, slot: u64, v: Val) -> St {
        self.arg(obj).arg(constant(slot)).arg(v).call_void("locus_gc_set_scalar")
    }

    /// Store a traced cell: verbatim for a word cell, through its handle else.
    pub open spec fn gc_set_traced(self, obj: Val, slot: u64, v: Val, word: bool) -> St {
        self.arg(obj).arg(constant(slot)).arg(v).call_void(
            if word {
                "locus_gc_set_word"
            } else {
                "locus_gc_set_ptr"
            },
        )
    }

    pub open spec fn gc_get_scalar(self, obj: Val, slot: u64) -> (St, Val) {
        self.arg(obj).arg(constant(slot)).call(
            "locus_gc_get_scalar",
            Ty::I64,
            "locus_gc_get_scalar",
        )
    }

    /// Read a traced cell: verbatim for a word cell, as a fresh handle else.
    pub open spec fn gc_get_traced(self, obj: Val, slot: u64, word: bool) -> (St, Val) {
        let st = self.arg(obj).arg(constant(slot));
        if word {
            st.call("locus_gc_get_word", Ty::I64, "locus_gc_get_word")
        } else {
            st.call("locus_gc_get_ptr", Ty::I64, "locus_gc_get_ptr")
        }
    }

    pub open spec fn gc_enter(self) -> (St, Val) {
        self.call("locus_gc_enter", Ty::I64, "locus_gc_enter")
    }

    pub open spec fn gc_leave_with(self, frame: Val, result: Val) -> (St, Val) {
        self.arg(frame).arg(result).call("locus_gc_leave_with", Ty::I64, "locus_gc_leave_with")
    }

    pub open spec fn gc_leave(self, frame: Val) -> St {
        self.arg(frame).call_void("locus_gc_leave")
    }

    pub open spec fn gc_root(self, v: Val) -> (St, Val) {
        self.arg(v).call("locus_gc_root", Ty::I64, "locus_gc_root")
    }

    pub open spec fn gc_root_set(self, root: Val, v: Val) -> (St, Val) {
        self.arg(root).arg(v).call("locus_gc_root_set", Ty::I64, "locus_gc_root_set")
    }

    // ── values as runs of cells ──────────────────────────────────────────
    /// Read `n` cells from `ptr` on.
    pub open spec fn read_cells(
        self,
        ptr: Val,
        n: nat,
        slot: &'static str,
        cell: &'static str,
    ) -> (St, Seq<Val>)
        decreases n,
    {
        if n == 0 {
            (self, Seq::empty())
        } else {
            let (st, vs) = self.read_cells(ptr, (n - 1) as nat, slot, cell);
            let (st, p) = st.gep(Ty::I64, ptr, constant((n - 1) as u64), slot);
            let (st, v) = st.load(Ty::I64, p, cell);
            (st, vs.push(v))
        }
    }

    /// Write the first `n` of `vs` from `ptr` on.
    pub open spec fn write_cells(self, ptr: Val, vs: Seq<Val>, n: nat, slot: &'static str) -> St
        decreases n,
    {
        if n == 0 {
            self
        } else {
            let st = self.write_cells(ptr, vs, (n - 1) as nat, slot);
            let (st, p) = st.gep(Ty::I64, ptr, constant((n - 1) as u64), slot);
            st.store(p, vs[n - 1])
        }
    }

    /// A value as `cells` words: one cell is its own word; a vector is spilled
    /// and read back cell by cell.
    pub open spec fn value_to_cells(self, v: Val, cells: u64, context: &'static str) -> Cells {
        if cells == 1 {
            match cell_of(v, context) {
                Ok(v) => Ok((self, seq![v])),
                Err(e) => Err(e),
            }
        } else {
            let (st, ptr) = self.def(Cmd::Alloca { ty: v.ty, label: "scalar.spill" }, Ty::Ptr);
            let st = st.store(ptr, v);
            Ok(st.read_cells(ptr, cells as nat, "scalar.spill.slot", "scalar.spill.cell"))
        }
    }

    /// The value of type `ty` that the words make up: one word is its own value;
    /// several are written to a slot and loaded as a vector.
    pub open spec fn cells_to_value(
        self,
        ty: Rc<Type>,
        vs: Seq<Val>,
        context: &'static str,
    ) -> Out {
        if vs.len() == 1 {
            Ok((self, vs[0]))
        } else {
            match *ty {
                Type::Vector(shape, elem) => match vector_ty(shape, elem) {
                    Err(e) => Err(e),
                    Ok(vt) => {
                        let (st, ptr) = self.def(
                            Cmd::Alloca { ty: vt, label: "scalar.reload" },
                            Ty::Ptr,
                        );
                        let st = st.write_cells(ptr, vs, vs.len(), "scalar.reload.slot");
                        Ok(st.load(vt, ptr, "scalar.reload.vec"))
                    },
                },
                _ => Err(CodegenError::NotMultiCell(context, vs.len() as usize, ty)),
            }
        }
    }

    // ── arrays ───────────────────────────────────────────────────────────
    /// Store the first `n` words of one element, cell by cell.
    pub open spec fn store_elem_words(
        self,
        arr: Val,
        index: Val,
        cells: u64,
        words: Seq<Val>,
        n: nat,
    ) -> St
        decreases n,
    {
        if n == 0 {
            self
        } else {
            self.store_elem_words(arr, index, cells, words, (n - 1) as nat).arg(arr).arg(index).arg(
                constant(cells),
            ).arg(constant((n - 1) as u64)).arg(words[n - 1]).call_void(
                "locus_gc_array_set_scalar_cell",
            )
        }
    }

    /// Store one element of an untraced payload: packed by its stride, or as
    /// whole cells if it is wider than a cell.
    pub open spec fn store_elem(self, arr: Val, index: Val, v: Val, stride: u64, cells: u64) -> Result<
        St,
        CodegenError,
    > {
        if cells <= 1 {
            match cell_of(v, "array element") {
                Err(e) => Err(e),
                Ok(v) => Ok(
                    self.arg(arr).arg(index).arg(constant(stride)).arg(v).call_void(
                        "locus_gc_array_set_scalar_bytes",
                    ),
                ),
            }
        } else {
            match self.value_to_cells(v, cells, "array element") {
                Err(e) => Err(e),
                Ok((st, words)) => Ok(st.store_elem_words(arr, index, cells, words, words.len())),
            }
        }
    }

    /// Store the elements from position `i` on.
    pub open spec fn store_elems(
        self,
        arr: Val,
        vs: Seq<Val>,
        i: nat,
        stride: u64,
        cells: u64,
    ) -> Result<St, CodegenError>
        decreases vs.len() - i,
    {
        if i >= vs.len() {
            Ok(self)
        } else {
            match self.store_elem(arr, constant(i as u64), vs[i as int], stride, cells) {
                Err(e) => Err(e),
                Ok(st) => st.store_elems(arr, vs, i + 1, stride, cells),
            }
        }
    }

    /// An array with an untraced payload: its length in scalar slot 0, then the
    /// elements.
    pub open spec fn scalar_array(
        self,
        vs: Seq<Val>,
        stride: u64,
        data_cells: u64,
        cells: u64,
    ) -> Out {
        let (st, arr) = self.gc_alloc(0, (1 + data_cells) as u64);
        let st = st.gc_set_scalar(arr, 0, constant(vs.len() as u64));
        match st.store_elems(arr, vs, 0, stride, cells) {
            Err(e) => Err(e),
            Ok(st) => Ok((st, arr)),
        }
    }

    // ── operands ─────────────────────────────────────────────────────────
    /// A string literal: an array of its UTF-16 code units.
    pub open spec fn string(self, s: Seq<char>) -> Out {
        let units = utf16(s);
        if 2 * units.len() > usize::MAX {
            Err(CodegenError::ArraySizeOverflow(Context::Phrase("array element")))
        } else {
            self.scalar_array(unit_cells(units), 2, cells_for(2 * units.len() as int) as u64, 1)
        }
    }

    /// The value of an operand.
    pub open spec fn atom(self, a: Atom) -> Out {
        match a {
            Atom::Int(n) => Ok((self, constant(n as u64))),
            Atom::Float(bits) => Ok((self, constant(bits))),
            Atom::Bool(b) => Ok((self, constant(if b { 1 } else { 0 }))),
            Atom::Unit => Ok((self, constant(0))),
            Atom::Str(s) => self.string(s@),
            Atom::Var(x) => match self.cx.env.get(x@) {
                Some(v) => Ok((self, v.value)),
                None => Err(CodegenError::UnboundVariable(x)),
            },
        }
    }

    /// The value of an operand that must be one cell.
    pub open spec fn cell(self, a: Atom, context: &'static str) -> Out {
        match self.atom(a) {
            Err(e) => Err(e),
            Ok((st, v)) => match cell_of(v, context) {
                Err(e) => Err(e),
                Ok(v) => Ok((st, v)),
            },
        }
    }
}

/// Code units as constants.
pub open spec fn unit_cells(units: Seq<u16>) -> Seq<Val> {
    Seq::new(units.len(), |i: int| constant(units[i] as u64))
}

impl Cg {
    pub(crate) fn gc_alloc(&mut self, pointers: u64, scalars: u64) -> (r: Val)
        ensures
            (final(self)@, r) == old(self)@.gc_alloc(pointers, scalars),
    {
        self.arg(const_cell(pointers));
        self.arg(const_cell(scalars));
        self.call("locus_gc_alloc", Ty::I64, "locus_gc_alloc")
    }

    pub(crate) fn gc_set_scalar(&mut self, obj: Val, slot: u64, v: Val)
        ensures
            final(self)@ == old(self)@.gc_set_scalar(obj, slot, v),
    {
        self.arg(obj);
        self.arg(const_cell(slot));
        self.arg(v);
        self.call_void("locus_gc_set_scalar")
    }

    pub(crate) fn gc_set_traced(&mut self, obj: Val, slot: u64, v: Val, word: bool)
        ensures
            final(self)@ == old(self)@.gc_set_traced(obj, slot, v, word),
    {
        self.arg(obj);
        self.arg(const_cell(slot));
        self.arg(v);
        self.call_void(
            if word {
                "locus_gc_set_word"
            } else {
                "locus_gc_set_ptr"
            },
        )
    }

    pub(crate) fn gc_get_scalar(&mut self, obj: Val, slot: u64) -> (r: Val)
        ensures
            (final(self)@, r) == old(self)@.gc_get_scalar(obj, slot),
    {
        self.arg(obj);
        self.arg(const_cell(slot));
        self.call("locus_gc_get_scalar", Ty::I64, "locus_gc_get_scalar")
    }

    pub(crate) fn gc_get_traced(&mut self, obj: Val, slot: u64, word: bool) -> (r: Val)
        ensures
            (final(self)@, r) == old(self)@.gc_get_traced(obj, slot, word),
    {
        self.arg(obj);
        self.arg(const_cell(slot));
        if word {
            self.call("locus_gc_get_word", Ty::I64, "locus_gc_get_word")
        } else {
            self.call("locus_gc_get_ptr", Ty::I64, "locus_gc_get_ptr")
        }
    }

    /// Open a handle scope.
    pub(crate) fn gc_enter(&mut self) -> (r: Val)
        ensures
            (final(self)@, r) == old(self)@.gc_enter(),
    {
        self.call("locus_gc_enter", Ty::I64, "locus_gc_enter")
    }

    /// Close a handle scope and hand `result` to the caller.
    pub(crate) fn gc_leave_with(&mut self, frame: Val, result: Val) -> (r: Val)
        ensures
            (final(self)@, r) == old(self)@.gc_leave_with(frame, result),
    {
        self.arg(frame);
        self.arg(result);
        self.call("locus_gc_leave_with", Ty::I64, "locus_gc_leave_with")
    }

    /// Close a handle scope.
    pub(crate) fn gc_leave(&mut self, frame: Val)
        ensures
            final(self)@ == old(self)@.gc_leave(frame),
    {
        self.arg(frame);
        self.call_void("locus_gc_leave")
    }

    pub(crate) fn gc_root(&mut self, v: Val) -> (r: Val)
        ensures
            (final(self)@, r) == old(self)@.gc_root(v),
    {
        self.arg(v);
        self.call("locus_gc_root", Ty::I64, "locus_gc_root")
    }

    pub(crate) fn gc_root_set(&mut self, root: Val, v: Val) -> (r: Val)
        ensures
            (final(self)@, r) == old(self)@.gc_root_set(root, v),
    {
        self.arg(root);
        self.arg(v);
        self.call("locus_gc_root_set", Ty::I64, "locus_gc_root_set")
    }

    /// Read `n` cells from `ptr` on.
    pub(crate) fn read_cells(
        &mut self,
        ptr: Val,
        n: u64,
        slot: &'static str,
        cell: &'static str,
    ) -> (r: Vec<Val>)
        ensures
            (final(self)@, r@) == old(self)@.read_cells(ptr, n as nat, slot, cell),
    {
        let mut out: Vec<Val> = Vec::new();
        let mut i: u64 = 0;
        while i < n
            invariant
                i <= n,
                (self@, out@) == old(self)@.read_cells(ptr, i as nat, slot, cell),
            decreases n - i,
        {
            let p = self.gep(Ty::I64, ptr, const_cell(i), slot);
            let v = self.load(Ty::I64, p, cell);
            out.push(v);
            i = i + 1;
        }
        out
    }

    /// Write the cells from `ptr` on.
    pub(crate) fn write_cells(&mut self, ptr: Val, vs: &Vec<Val>, slot: &'static str)
        ensures
            final(self)@ == old(self)@.write_cells(ptr, vs@, vs@.len(), slot),
    {
        let mut i: usize = 0;
        while i < vs.len()
            invariant
                i <= vs.len(),
                self@ == old(self)@.write_cells(ptr, vs@, i as nat, slot),
            decreases vs.len() - i,
        {
            let p = self.gep(Ty::I64, ptr, const_cell(i as u64), slot);
            self.store(p, vs[i]);
            i = i + 1;
        }
    }

    /// A value as `cells` words.
    pub(crate) fn scalar_value_to_cells(&mut self, v: Val, cells: u64, context: &'static str) -> (r: Result<
        Vec<Val>,
        CodegenError,
    >)
        ensures
            agrees_cells(old(self)@.value_to_cells(v, cells, context), final(self)@, r),
    {
        if cells == 1 {
            match expect_cell(v, context) {
                Err(e) => Err(e),
                Ok(v) => {
                    let mut out: Vec<Val> = Vec::new();
                    out.push(v);
                    assert(out@ =~= seq![v]);
                    Ok(out)
                },
            }
        } else {
            let ptr = self.def(Cmd::Alloca { ty: v.ty, label: "scalar.spill" }, Ty::Ptr);
            self.store(ptr, v);
            Ok(self.read_cells(ptr, cells, "scalar.spill.slot", "scalar.spill.cell"))
        }
    }

    /// The value that the words make up.
    pub(crate) fn scalar_cells_to_value(
        &mut self,
        ty: &Rc<Type>,
        vs: &Vec<Val>,
        context: &'static str,
    ) -> (r: Result<Val, CodegenError>)
        ensures
            agrees(old(self)@.cells_to_value(*ty, vs@, context), final(self)@, r),
    {
        if vs.len() == 1 {
            return Ok(vs[0]);
        }
        match &**ty {
            Type::Vector(shape, elem) => match vector_type(*shape, elem) {
                Err(e) => Err(e),
                Ok(vt) => {
                    let ptr = self.def(Cmd::Alloca { ty: vt, label: "scalar.reload" }, Ty::Ptr);
                    self.write_cells(ptr, vs, "scalar.reload.slot");
                    Ok(self.load(vt, ptr, "scalar.reload.vec"))
                },
            },
            _ => Err(CodegenError::NotMultiCell(context, vs.len(), share(ty))),
        }
    }

    fn store_elem_words(&mut self, arr: Val, index: Val, cells: u64, words: &Vec<Val>)
        ensures
            final(self)@ == old(self)@.store_elem_words(arr, index, cells, words@, words@.len()),
    {
        let mut w: usize = 0;
        while w < words.len()
            invariant
                w <= words.len(),
                self@ == old(self)@.store_elem_words(arr, index, cells, words@, w as nat),
            decreases words.len() - w,
        {
            self.arg(arr);
            self.arg(index);
            self.arg(const_cell(cells));
            self.arg(const_cell(w as u64));
            self.arg(words[w]);
            self.call_void("locus_gc_array_set_scalar_cell");
            w = w + 1;
        }
    }

    /// Store one element of an untraced payload.
    pub(crate) fn array_store_scalar_elem(
        &mut self,
        arr: Val,
        index: Val,
        v: Val,
        stride: u64,
        cells: u64,
    ) -> (r: Result<(), CodegenError>)
        ensures
            agrees_unit(
                old(self)@.store_elem(arr, index, v, stride, cells),
                final(self)@,
                r,
            ),
    {
        if cells <= 1 {
            match expect_cell(v, "array element") {
                Err(e) => Err(e),
                Ok(v) => {
                    self.arg(arr);
                    self.arg(index);
                    self.arg(const_cell(stride));
                    self.arg(v);
                    self.call_void("locus_gc_array_set_scalar_bytes");
                    Ok(())
                },
            }
        } else {
            match self.scalar_value_to_cells(v, cells, "array element") {
                Err(e) => Err(e),
                Ok(words) => {
                    self.store_elem_words(arr, index, cells, &words);
                    Ok(())
                },
            }
        }
    }

    fn store_elems(&mut self, arr: Val, vs: &Vec<Val>, stride: u64, cells: u64) -> (r: Result<
        (),
        CodegenError,
    >)
        ensures
            agrees_unit(
                old(self)@.store_elems(arr, vs@, 0, stride, cells),
                final(self)@,
                r,
            ),
    {
        let mut i: usize = 0;
        while i < vs.len()
            invariant
                i <= vs.len(),
                self@.store_elems(arr, vs@, i as nat, stride, cells) == old(self)@.store_elems(
                    arr,
                    vs@,
                    0,
                    stride,
                    cells,
                ),
            decreases vs.len() - i,
        {
            match self.array_store_scalar_elem(arr, const_cell(i as u64), vs[i], stride, cells) {
                Err(e) => {
                    return Err(e);
                },
                Ok(()) => {},
            }
            i = i + 1;
        }
        Ok(())
    }

    /// An array with an untraced payload.
    pub(crate) fn scalar_array(&mut self, vs: &Vec<Val>, stride: u64, data_cells: u64, cells: u64) -> (r: Result<
        Val,
        CodegenError,
    >)
        requires
            data_cells < u64::MAX,
        ensures
            agrees(old(self)@.scalar_array(vs@, stride, data_cells, cells), final(self)@, r),
    {
        let arr = self.gc_alloc(0, 1 + data_cells);
        self.gc_set_scalar(arr, 0, const_cell(vs.len() as u64));
        match self.store_elems(arr, vs, stride, cells) {
            Err(e) => Err(e),
            Ok(()) => Ok(arr),
        }
    }

    fn lower_string(&mut self, s: &String) -> (r: Result<Val, CodegenError>)
        ensures
            agrees(old(self)@.string(s@), final(self)@, r),
    {
        let units: Vec<u16> = encode_utf16(s);
        let mut vs: Vec<Val> = Vec::new();
        let mut i: usize = 0;
        while i < units.len()
            invariant
                i <= units.len(),
                vs@ == unit_cells(units@).take(i as int),
            decreases units.len() - i,
        {
            vs.push(const_cell(units[i] as u64));
            i = i + 1;
            assert(vs@ =~= unit_cells(units@).take(i as int));
        }
        assert(vs@ =~= unit_cells(units@));
        let n: usize = units.len();
        if n > usize::MAX / 2 {
            return Err(CodegenError::ArraySizeOverflow(Context::Phrase("array element")));
        }
        let data_cells: usize = n / 4 + if n % 4 == 0 { 0 } else { 1 };
        self.scalar_array(&vs, 2, data_cells as u64, 1)
    }

    /// The value of an operand.
    pub(crate) fn lower_atom(&mut self, a: &Atom) -> (r: Result<Val, CodegenError>)
        ensures
            agrees(old(self)@.atom(*a), final(self)@, r),
    {
        match a {
            Atom::Int(n) => Ok(const_cell(*n as u64)),
            Atom::Float(bits) => Ok(const_cell(*bits)),
            Atom::Bool(b) => Ok(const_cell(if *b { 1 } else { 0 })),
            Atom::Unit => Ok(const_cell(0)),
            Atom::Str(s) => self.lower_string(s),
            Atom::Var(x) => match self.cx.env.find(x) {
                Some(v) => Ok(v.value),
                None => Err(CodegenError::UnboundVariable(x.clone())),
            },
        }
    }

    /// The value of an operand that must be one cell.
    pub(crate) fn lower_cell(&mut self, a: &Atom, context: &'static str) -> (r: Result<
        Val,
        CodegenError,
    >)
        ensures
            agrees(old(self)@.cell(*a, context), final(self)@, r),
    {
        match self.lower_atom(a) {
            Err(e) => Err(e),
            Ok(v) => expect_cell(v, context),
        }
    }
}

} // verus!
