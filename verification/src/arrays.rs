//! Managed arrays: literals, lengths, element reads and writes, and the path
//! through a payload that is borrowed for a loop.
use crate::error::{CodegenError, Context};
use crate::heap::{agrees_cells, Cells};
use crate::ir::{Atom, Type, ValueLayout};
use crate::layout::{array_elem_layout, elem_layout_of, ArrayElemLayout};
use crate::state::{agrees, agrees_unit, Cg, Out, RawArray, Scope, St};
use crate::target::{const_cell, constant, IntOp, IntPred, Ty, Val};
use std::rc::Rc;
use vstd::prelude::*;

verus! {

/// The bits that an element of `stride` bytes takes in a cell.
pub open spec fn elem_mask(stride: u64) -> u64 {
    if stride >= 8 {
        u64::MAX
    } else {
        ((1u64 << (stride * 8)) - 1) as u64
    }
}

fn mask_of(stride: u64) -> (r: u64)
    ensures
        r == elem_mask(stride),
{
    if stride >= 8 {
        u64::MAX
    } else {
        let bits: u64 = stride * 8;
        let top: u64 = 1u64 << bits;
        assert(top >= 1) by (bit_vector)
            requires
                top == 1u64 << bits,
                bits < 64,
        ;
        top - 1
    }
}

/// Some entry says that `idx` is in bounds of `arr`.
pub open spec fn bound_known(bounds: Scope<String>, arr: Seq<char>, idx: Seq<char>) -> bool
    decreases bounds,
{
    match bounds {
        Scope::Empty => false,
        Scope::More { name, item, rest } => (name@ == arr && item@ == idx) || bound_known(
            *rest,
            arr,
            idx,
        ),
    }
}

/// Whether `idx` is known to be in bounds of `arr`.
fn is_bound_known(bounds: &Scope<String>, arr: &String, idx: &String) -> (r: bool)
    ensures
        r == bound_known(*bounds, arr@, idx@),
{
    let mut cur: &Scope<String> = bounds;
    loop
        invariant
            bound_known(*cur, arr@, idx@) == bound_known(*bounds, arr@, idx@),
        decreases cur,
    {
        match cur {
            Scope::Empty => {
                return false;
            },
            Scope::More { name, item, rest } => {
                if *name == *arr && *item == *idx {
                    return true;
                }
                cur = rest;
            },
        }
    }
}

/// The payload address and byte offset of an element, or an error.
pub type Place = Result<(St, Val, Val), CodegenError>;

impl St {
    /// The loop guard proved the index in bounds of the array.
    pub open spec fn in_bounds(self, arr: Seq<char>, idx: Atom) -> bool {
        idx matches Atom::Var(i) && bound_known(*self.cx.bounds, arr, i@)
    }

    /// The borrowed payload of an array, if its name stands for the array that was
    /// borrowed under it.
    pub open spec fn borrowed(self, arr: Atom) -> Option<RawArray> {
        match arr {
            Atom::Var(name) => match (self.cx.raws.get(name@), self.cx.env.get(name@)) {
                (Some(raw), Some(var)) => if raw.arr == var.value {
                    Some(raw)
                } else {
                    None
                },
                _ => None,
            },
            _ => None,
        }
    }

    /// The values of the atoms from position `i` on, behind those already done.
    pub open spec fn atom_vals(self, atoms: Seq<Atom>, i: nat, done: Seq<Val>) -> Cells
        decreases atoms.len() - i,
    {
        if i >= atoms.len() {
            Ok((self, done))
        } else {
            match self.atom(atoms[i as int]) {
                Err(e) => Err(e),
                Ok((st, v)) => st.atom_vals(atoms, i + 1, done.push(v)),
            }
        }
    }

    /// The same, for atoms that must be cells.
    pub open spec fn cell_vals(
        self,
        atoms: Seq<Atom>,
        i: nat,
        done: Seq<Val>,
        context: &'static str,
    ) -> Cells
        decreases atoms.len() - i,
    {
        if i >= atoms.len() {
            Ok((self, done))
        } else {
            match self.cell(atoms[i as int], context) {
                Err(e) => Err(e),
                Ok((st, v)) => st.cell_vals(atoms, i + 1, done.push(v), context),
            }
        }
    }

    /// Store the first `n` handles into the traced slots of an array.
    pub open spec fn set_handles(self, arr: Val, vs: Seq<Val>, n: nat) -> St
        decreases n,
    {
        if n == 0 {
            self
        } else {
            self.set_handles(arr, vs, (n - 1) as nat).gc_set_traced(
                arr,
                (n - 1) as u64,
                vs[n - 1],
                false,
            )
        }
    }

    /// An array literal. A traced array has one slot per element and its length
    /// in scalar slot 0; any other has its length and then its payload there.
    pub open spec fn array_lit(self, elems: Seq<Atom>, layout: ValueLayout) -> Out {
        match elem_layout_of(layout, elems.len() as usize, Context::Phrase("array element")) {
            Err(e) => Err(e),
            Ok(ArrayElemLayout::Pointer) => match self.cell_vals(
                elems,
                0,
                Seq::empty(),
                "array element",
            ) {
                Err(e) => Err(e),
                Ok((st, vs)) => {
                    let (st, arr) = st.gc_alloc(elems.len() as u64, 1);
                    let st = st.gc_set_scalar(arr, 0, constant(elems.len() as u64));
                    Ok((st.set_handles(arr, vs, vs.len()), arr))
                },
            },
            Ok(ArrayElemLayout::Scalar { stride, data_cells, elem_cells }) => match self.atom_vals(
                elems,
                0,
                Seq::empty(),
            ) {
                Err(e) => Err(e),
                Ok((st, vs)) => st.scalar_array(vs, stride, data_cells, elem_cells),
            },
        }
    }

    /// The number of elements of an array.
    pub open spec fn len_of(self, arr: Atom) -> Out {
        match self.borrowed(arr) {
            Some(raw) => Ok((self, raw.len)),
            None => match self.cell(arr, "array handle") {
                Err(e) => Err(e),
                Ok((st, a)) => Ok(st.arg(a).call("locus_gc_len", Ty::I64, "locus_gc_len")),
            },
        }
    }

    /// The byte of an element, counted from the first, and the pointer to its
    /// cell: the cells begin behind the one with the length.
    pub open spec fn place(self, base: Val, i: Val, stride: u64) -> (St, Val, Val) {
        let (st, byte) = if stride == 1 {
            (self, i)
        } else {
            self.iop(IntOp::Mul, i, constant(stride), "array.byte")
        };
        let (st, cell) = if stride == 8 {
            (st, i)
        } else {
            st.iop(IntOp::UDiv, byte, constant(8), "array.cell")
        };
        let (st, slot) = st.iop(IntOp::Add, cell, constant(1), "array.slot");
        let (st, ptr) = st.gep(Ty::I64, base, slot, "array.elem.ptr");
        (st, byte, ptr)
    }

    /// The address of an element in a borrowed payload: behind the length cell,
    /// at the cell that holds its first byte. Traps on an index out of bounds,
    /// unless the loop guard rules that out.
    pub open spec fn borrowed_slot(self, raw: RawArray, idx: Atom, stride: u64, proved: bool) -> Place {
        match self.cell(idx, "array index") {
            Err(e) => Err(e),
            Ok((st, i)) => {
                let st = if proved {
                    st
                } else {
                    let (st, neg) = st.itest(IntPred::Slt, i, constant(0), "array.idx.neg");
                    let (st, past) = st.itest(IntPred::Sge, i, raw.len, "array.idx.past");
                    let (st, bad) = st.iop(IntOp::Or, neg, past, "array.idx.bad");
                    st.trap_if(
                        bad,
                        "array.index.trap",
                        "array.index.cont",
                        "array.index.abort",
                    )
                };
                let (st, byte, ptr) = st.place(raw.base, i, stride);
                Ok((st, byte, ptr))
            },
        }
    }

    /// An element of a borrowed payload: its cell, shifted down to its first
    /// byte and masked to its width.
    pub open spec fn borrowed_get(self, raw: RawArray, idx: Atom, stride: u64, proved: bool) -> Out {
        match self.borrowed_slot(raw, idx, stride, proved) {
            Err(e) => Err(e),
            Ok((st, byte, ptr)) => {
                let (st, cell) = st.load(Ty::I64, ptr, "array.elem.raw");
                if stride == 8 {
                    Ok((st, cell))
                } else {
                    let (st, first) = st.iop(
                        IntOp::URem,
                        byte,
                        constant(8),
                        "array.byte.in.cell",
                    );
                    let (st, shift) = st.iop(IntOp::Mul, first, constant(8), "array.shift");
                    let (st, down) = st.iop(IntOp::LShr, cell, shift, "array.shifted");
                    Ok(st.iop(IntOp::And, down, constant(elem_mask(stride)), "array.elem"))
                }
            },
        }
    }

    /// Write an element of a borrowed payload: the bits of its cell outside the
    /// element stay.
    pub open spec fn borrowed_set(
        self,
        raw: RawArray,
        idx: Atom,
        val: Atom,
        stride: u64,
        proved: bool,
    ) -> Result<St, CodegenError> {
        match self.cell(val, "array element") {
            Err(e) => Err(e),
            Ok((st, v)) => match st.borrowed_slot(raw, idx, stride, proved) {
                Err(e) => Err(e),
                Ok((st, byte, ptr)) => if stride == 8 {
                    Ok(st.store(ptr, v))
                } else {
                    let mask = constant(elem_mask(stride));
                    let (st, cell) = st.load(Ty::I64, ptr, "array.store.old");
                    let (st, first) = st.iop(
                        IntOp::URem,
                        byte,
                        constant(8),
                        "array.store.byte.in.cell",
                    );
                    let (st, shift) = st.iop(
                        IntOp::Mul,
                        first,
                        constant(8),
                        "array.store.shift",
                    );
                    let (st, place) = st.iop(
                        IntOp::Shl,
                        mask,
                        shift,
                        "array.store.shifted.mask",
                    );
                    let (st, rest) = st.iop(
                        IntOp::Xor,
                        place,
                        constant(u64::MAX),
                        "array.store.clear.mask",
                    );
                    let (st, kept) = st.iop(IntOp::And, cell, rest, "array.store.cleared");
                    let (st, up) = st.iop(
                        IntOp::Shl,
                        v,
                        shift,
                        "array.store.shifted.payload",
                    );
                    let (st, bits) = st.iop(IntOp::And, up, place, "array.store.payload");
                    let (st, new) = st.iop(IntOp::Or, kept, bits, "array.store.new");
                    Ok(st.store(ptr, new))
                },
            },
        }
    }

    /// Read `n` cells of one element.
    pub open spec fn elem_words(self, arr: Val, index: Val, cells: u64, n: nat) -> (St, Seq<Val>)
        decreases n,
    {
        if n == 0 {
            (self, Seq::empty())
        } else {
            let (st, words) = self.elem_words(arr, index, cells, (n - 1) as nat);
            let (st, word) = st.arg(arr).arg(index).arg(constant(cells)).arg(
                constant((n - 1) as u64),
            ).call(
                "locus_gc_array_get_scalar_cell",
                Ty::I64,
                "locus_gc_array_get_scalar_cell",
            );
            (st, words.push(word))
        }
    }

    /// An element of an array, checked against its bounds.
    pub open spec fn array_get(
        self,
        arr: Atom,
        idx: Atom,
        layout: ValueLayout,
        ty: Rc<Type>,
    ) -> Out {
        match self.cell(arr, "array handle") {
            Err(e) => Err(e),
            Ok((st, a)) => match st.cell(idx, "array index") {
                Err(e) => Err(e),
                Ok((st, i)) => match elem_layout_of(layout, 0, Context::Phrase("array element")) {
                    Err(e) => Err(e),
                    Ok(ArrayElemLayout::Pointer) => Ok(
                        st.arg(a).arg(i).call(
                            "locus_gc_array_get_ptr",
                            Ty::I64,
                            "locus_gc_array_get_ptr",
                        ),
                    ),
                    Ok(ArrayElemLayout::Scalar { stride, elem_cells, .. }) => if elem_cells > 1 {
                        let (st, words) = st.elem_words(a, i, elem_cells, elem_cells as nat);
                        st.cells_to_value(ty, words, "array element")
                    } else {
                        match st.borrowed(arr) {
                            Some(raw) => st.borrowed_get(
                                raw,
                                idx,
                                stride,
                                st.in_bounds(arr->Var_0@, idx),
                            ),
                            None => Ok(
                                st.arg(a).arg(i).arg(constant(stride)).call(
                                    "locus_gc_array_get_scalar_bytes",
                                    Ty::I64,
                                    "locus_gc_array_get_scalar_bytes",
                                ),
                            ),
                        }
                    },
                },
            },
        }
    }

    /// Write an element of an array, checked against its bounds.
    pub open spec fn array_set(self, arr: Atom, idx: Atom, val: Atom, layout: ValueLayout) -> Out {
        match elem_layout_of(layout, 0, Context::Phrase("array element")) {
            Err(e) => Err(e),
            Ok(ArrayElemLayout::Pointer) => match self.three_cells(arr, idx, val) {
                Err(e) => Err(e),
                Ok((st, (a, i, v))) => Ok(
                    (
                        st.arg(a).arg(i).arg(v).call_void("locus_gc_array_set_ptr"),
                        constant(0),
                    ),
                ),
            },
            Ok(ArrayElemLayout::Scalar { stride, elem_cells, .. }) => if elem_cells > 1 {
                match self.cell(arr, "array handle") {
                    Err(e) => Err(e),
                    Ok((st, a)) => match st.cell(idx, "array index") {
                        Err(e) => Err(e),
                        Ok((st, i)) => match st.atom(val) {
                            Err(e) => Err(e),
                            Ok((st, v)) => match st.store_elem(a, i, v, stride, elem_cells) {
                                Err(e) => Err(e),
                                Ok(st) => Ok((st, constant(0))),
                            },
                        },
                    },
                }
            } else {
                match self.borrowed(arr) {
                    Some(raw) => match self.borrowed_set(
                        raw,
                        idx,
                        val,
                        stride,
                        self.in_bounds(arr->Var_0@, idx),
                    ) {
                        Err(e) => Err(e),
                        Ok(st) => Ok((st, constant(0))),
                    },
                    None => match self.three_cells(arr, idx, val) {
                        Err(e) => Err(e),
                        Ok((st, (a, i, v))) => Ok(
                            (
                                st.arg(a).arg(i).arg(constant(stride)).arg(v).call_void(
                                    "locus_gc_array_set_scalar_bytes",
                                ),
                                constant(0),
                            ),
                        ),
                    },
                }
            },
        }
    }

    /// An array, an index and an element as cells.
    pub open spec fn three_cells(self, arr: Atom, idx: Atom, val: Atom) -> Result<
        (St, (Val, Val, Val)),
        CodegenError,
    > {
        match self.cell(arr, "array handle") {
            Err(e) => Err(e),
            Ok((st, a)) => match st.cell(idx, "array index") {
                Err(e) => Err(e),
                Ok((st, i)) => match st.cell(val, "array element") {
                    Err(e) => Err(e),
                    Ok((st, v)) => Ok((st, (a, i, v))),
                },
            },
        }
    }
}

impl Cg {
    pub(crate) fn borrowed(&self, arr: &Atom) -> (r: Option<RawArray>)
        ensures
            r == self@.borrowed(*arr),
    {
        match arr {
            Atom::Var(name) => match (self.cx.raws.find(name), self.cx.env.find(name)) {
                (Some(raw), Some(var)) => if raw.arr == var.value {
                    Some(*raw)
                } else {
                    None
                },
                _ => None,
            },
            _ => None,
        }
    }

    fn in_bounds(&self, arr: &String, idx: &Atom) -> (r: bool)
        ensures
            r == self@.in_bounds(arr@, *idx),
    {
        match idx {
            Atom::Var(i) => is_bound_known(&self.cx.bounds, arr, i),
            _ => false,
        }
    }

    /// The values of the atoms.
    pub(crate) fn lower_atoms(&mut self, atoms: &Vec<Atom>) -> (r: Result<Vec<Val>, CodegenError>)
        ensures
            agrees_cells(old(self)@.atom_vals(atoms@, 0, Seq::empty()), final(self)@, r),
    {
        let mut done: Vec<Val> = Vec::new();
        let mut i: usize = 0;
        assert(done@ =~= Seq::empty());
        while i < atoms.len()
            invariant
                i <= atoms.len(),
                self@.atom_vals(atoms@, i as nat, done@) == old(self)@.atom_vals(
                    atoms@,
                    0,
                    Seq::empty(),
                ),
            decreases atoms.len() - i,
        {
            match self.lower_atom(&atoms[i]) {
                Err(e) => {
                    return Err(e);
                },
                Ok(v) => {
                    done.push(v);
                },
            }
            i = i + 1;
        }
        Ok(done)
    }

    fn lower_cells(&mut self, atoms: &Vec<Atom>, context: &'static str) -> (r: Result<
        Vec<Val>,
        CodegenError,
    >)
        ensures
            agrees_cells(old(self)@.cell_vals(atoms@, 0, Seq::empty(), context), final(self)@, r),
    {
        let mut done: Vec<Val> = Vec::new();
        let mut i: usize = 0;
        assert(done@ =~= Seq::empty());
        while i < atoms.len()
            invariant
                i <= atoms.len(),
                self@.cell_vals(atoms@, i as nat, done@, context) == old(self)@.cell_vals(
                    atoms@,
                    0,
                    Seq::empty(),
                    context,
                ),
            decreases atoms.len() - i,
        {
            match self.lower_cell(&atoms[i], context) {
                Err(e) => {
                    return Err(e);
                },
                Ok(v) => {
                    done.push(v);
                },
            }
            i = i + 1;
        }
        Ok(done)
    }

    fn set_handles(&mut self, arr: Val, vs: &Vec<Val>)
        ensures
            final(self)@ == old(self)@.set_handles(arr, vs@, vs@.len()),
    {
        let mut i: usize = 0;
        while i < vs.len()
            invariant
                i <= vs.len(),
                self@ == old(self)@.set_handles(arr, vs@, i as nat),
            decreases vs.len() - i,
        {
            self.gc_set_traced(arr, i as u64, vs[i], false);
            i = i + 1;
        }
    }

    /// An array literal.
    pub(crate) fn lower_array_lit(&mut self, elems: &Vec<Atom>, layout: ValueLayout) -> (r: Result<
        Val,
        CodegenError,
    >)
        ensures
            agrees(old(self)@.array_lit(elems@, layout), final(self)@, r),
    {
        let n: usize = elems.len();
        match array_elem_layout(layout, n, Context::Phrase("array element")) {
            Err(e) => Err(e),
            Ok(ArrayElemLayout::Pointer) => {
                match self.lower_cells(elems, "array element") {
                    Err(e) => Err(e),
                    Ok(vs) => {
                        let arr = self.gc_alloc(n as u64, 1);
                        self.gc_set_scalar(arr, 0, const_cell(n as u64));
                        self.set_handles(arr, &vs);
                        Ok(arr)
                    },
                }
            },
            Ok(ArrayElemLayout::Scalar { stride, data_cells, elem_cells }) => {
                match self.lower_atoms(elems) {
                    Err(e) => Err(e),
                    Ok(vs) => self.scalar_array(&vs, stride, data_cells, elem_cells),
                }
            },
        }
    }

    /// The number of elements of an array.
    pub(crate) fn lower_len(&mut self, arr: &Atom) -> (r: Result<Val, CodegenError>)
        ensures
            agrees(old(self)@.len_of(*arr), final(self)@, r),
    {
        if let Some(raw) = self.borrowed(arr) {
            return Ok(raw.len);
        }
        match self.lower_cell(arr, "array handle") {
            Err(e) => Err(e),
            Ok(a) => {
                self.arg(a);
                Ok(self.call("locus_gc_len", Ty::I64, "locus_gc_len"))
            },
        }
    }

    /// The address of an element in a borrowed payload, and its byte offset.
    fn lower_cached_scalar_array_slot(
        &mut self,
        raw: RawArray,
        idx: &Atom,
        stride: u64,
        proved: bool,
    ) -> (r: Result<(Val, Val), CodegenError>)
        ensures
            match old(self)@.borrowed_slot(raw, *idx, stride, proved) {
                Ok((st, byte, ptr)) => final(self)@ == st && r == Ok::<(Val, Val), CodegenError>(
                    (byte, ptr),
                ),
                Err(e) => r == Err::<(Val, Val), CodegenError>(e),
            },
    {
        let i = match self.lower_cell(idx, "array index") {
            Err(e) => {
                return Err(e);
            },
            Ok(i) => i,
        };
        if !proved {
            let neg = self.itest(IntPred::Slt, i, const_cell(0), "array.idx.neg");
            let past = self.itest(IntPred::Sge, i, raw.len, "array.idx.past");
            let bad = self.iop(IntOp::Or, neg, past, "array.idx.bad");
            self.trap_if(bad, "array.index.trap", "array.index.cont", "array.index.abort");
        }
        let byte = if stride == 1 {
            i
        } else {
            self.iop(IntOp::Mul, i, const_cell(stride), "array.byte")
        };
        let cell = if stride == 8 {
            i
        } else {
            self.iop(IntOp::UDiv, byte, const_cell(8), "array.cell")
        };
        let slot = self.iop(IntOp::Add, cell, const_cell(1), "array.slot");
        let ptr = self.gep(Ty::I64, raw.base, slot, "array.elem.ptr");
        Ok((byte, ptr))
    }

    /// An element of a borrowed payload.
    fn lower_cached_scalar_array_get(&mut self, raw: RawArray, idx: &Atom, stride: u64, proved: bool) -> (r: Result<
        Val,
        CodegenError,
    >)
        ensures
            agrees(old(self)@.borrowed_get(raw, *idx, stride, proved), final(self)@, r),
    {
        let (byte, ptr) = match self.lower_cached_scalar_array_slot(raw, idx, stride, proved) {
            Err(e) => {
                return Err(e);
            },
            Ok(place) => place,
        };
        let cell = self.load(Ty::I64, ptr, "array.elem.raw");
        if stride == 8 {
            return Ok(cell);
        }
        let first = self.iop(IntOp::URem, byte, const_cell(8), "array.byte.in.cell");
        let shift = self.iop(IntOp::Mul, first, const_cell(8), "array.shift");
        let down = self.iop(IntOp::LShr, cell, shift, "array.shifted");
        Ok(self.iop(IntOp::And, down, const_cell(mask_of(stride)), "array.elem"))
    }

    /// Write an element of a borrowed payload.
    fn lower_cached_scalar_array_set(
        &mut self,
        raw: RawArray,
        idx: &Atom,
        val: &Atom,
        stride: u64,
        proved: bool,
    ) -> (r: Result<(), CodegenError>)
        ensures
            agrees_unit(
                old(self)@.borrowed_set(raw, *idx, *val, stride, proved),
                final(self)@,
                r,
            ),
    {
        let v = match self.lower_cell(val, "array element") {
            Err(e) => {
                return Err(e);
            },
            Ok(v) => v,
        };
        let (byte, ptr) = match self.lower_cached_scalar_array_slot(raw, idx, stride, proved) {
            Err(e) => {
                return Err(e);
            },
            Ok(place) => place,
        };
        if stride == 8 {
            self.store(ptr, v);
            return Ok(());
        }
        let mask = const_cell(mask_of(stride));
        let cell = self.load(Ty::I64, ptr, "array.store.old");
        let first = self.iop(IntOp::URem, byte, const_cell(8), "array.store.byte.in.cell");
        let shift = self.iop(IntOp::Mul, first, const_cell(8), "array.store.shift");
        let place = self.iop(IntOp::Shl, mask, shift, "array.store.shifted.mask");
        let rest = self.iop(IntOp::Xor, place, const_cell(u64::MAX), "array.store.clear.mask");
        let kept = self.iop(IntOp::And, cell, rest, "array.store.cleared");
        let up = self.iop(IntOp::Shl, v, shift, "array.store.shifted.payload");
        let bits = self.iop(IntOp::And, up, place, "array.store.payload");
        let new = self.iop(IntOp::Or, kept, bits, "array.store.new");
        self.store(ptr, new);
        Ok(())
    }

    fn elem_words(&mut self, arr: Val, index: Val, cells: u64) -> (r: Vec<Val>)
        ensures
            (final(self)@, r@) == old(self)@.elem_words(arr, index, cells, cells as nat),
    {
        let mut out: Vec<Val> = Vec::new();
        let mut w: u64 = 0;
        while w < cells
            invariant
                w <= cells,
                (self@, out@) == old(self)@.elem_words(arr, index, cells, w as nat),
            decreases cells - w,
        {
            self.arg(arr);
            self.arg(index);
            self.arg(const_cell(cells));
            self.arg(const_cell(w));
            let word = self.call(
                "locus_gc_array_get_scalar_cell",
                Ty::I64,
                "locus_gc_array_get_scalar_cell",
            );
            out.push(word);
            w = w + 1;
        }
        out
    }

    /// An element of an array.
    pub(crate) fn lower_array_get(
        &mut self,
        arr: &Atom,
        idx: &Atom,
        layout: ValueLayout,
        ty: &Rc<Type>,
    ) -> (r: Result<Val, CodegenError>)
        ensures
            agrees(old(self)@.array_get(*arr, *idx, layout, *ty), final(self)@, r),
    {
        let a = match self.lower_cell(arr, "array handle") {
            Err(e) => {
                return Err(e);
            },
            Ok(a) => a,
        };
        let i = match self.lower_cell(idx, "array index") {
            Err(e) => {
                return Err(e);
            },
            Ok(i) => i,
        };
        match array_elem_layout(layout, 0, Context::Phrase("array element")) {
            Err(e) => Err(e),
            Ok(ArrayElemLayout::Pointer) => {
                self.arg(a);
                self.arg(i);
                Ok(self.call("locus_gc_array_get_ptr", Ty::I64, "locus_gc_array_get_ptr"))
            },
            Ok(ArrayElemLayout::Scalar { stride, elem_cells, .. }) => {
                if elem_cells > 1 {
                    let words = self.elem_words(a, i, elem_cells);
                    return self.scalar_cells_to_value(ty, &words, "array element");
                }
                if let Atom::Var(name) = arr {
                    if let Some(raw) = self.borrowed(arr) {
                        let proved = self.in_bounds(name, idx);
                        return self.lower_cached_scalar_array_get(raw, idx, stride, proved);
                    }
                }
                self.arg(a);
                self.arg(i);
                self.arg(const_cell(stride));
                Ok(
                    self.call(
                        "locus_gc_array_get_scalar_bytes",
                        Ty::I64,
                        "locus_gc_array_get_scalar_bytes",
                    ),
                )
            },
        }
    }

    fn three_cells(&mut self, arr: &Atom, idx: &Atom, val: &Atom) -> (r: Result<
        (Val, Val, Val),
        CodegenError,
    >)
        ensures
            match old(self)@.three_cells(*arr, *idx, *val) {
                Ok((st, vs)) => final(self)@ == st && r == Ok::<(Val, Val, Val), CodegenError>(vs),
                Err(e) => r == Err::<(Val, Val, Val), CodegenError>(e),
            },
    {
        let a = match self.lower_cell(arr, "array handle") {
            Err(e) => {
                return Err(e);
            },
            Ok(a) => a,
        };
        let i = match self.lower_cell(idx, "array index") {
            Err(e) => {
                return Err(e);
            },
            Ok(i) => i,
        };
        match self.lower_cell(val, "array element") {
            Err(e) => Err(e),
            Ok(v) => Ok((a, i, v)),
        }
    }

    fn array_set_wide(&mut self, arr: &Atom, idx: &Atom, val: &Atom, stride: u64, cells: u64) -> (r: Result<
        Val,
        CodegenError,
    >)
        ensures
            agrees(
                match old(self)@.cell(*arr, "array handle") {
                    Err(e) => Err(e),
                    Ok((st, a)) => match st.cell(*idx, "array index") {
                        Err(e) => Err(e),
                        Ok((st, i)) => match st.atom(*val) {
                            Err(e) => Err(e),
                            Ok((st, v)) => match st.store_elem(a, i, v, stride, cells) {
                                Err(e) => Err(e),
                                Ok(st) => Ok((st, constant(0))),
                            },
                        },
                    },
                },
                final(self)@,
                r,
            ),
    {
        let a = match self.lower_cell(arr, "array handle") {
            Err(e) => {
                return Err(e);
            },
            Ok(a) => a,
        };
        let i = match self.lower_cell(idx, "array index") {
            Err(e) => {
                return Err(e);
            },
            Ok(i) => i,
        };
        let v = match self.lower_atom(val) {
            Err(e) => {
                return Err(e);
            },
            Ok(v) => v,
        };
        match self.array_store_scalar_elem(a, i, v, stride, cells) {
            Err(e) => Err(e),
            Ok(()) => Ok(const_cell(0)),
        }
    }

    /// Write an element of an array.
    pub(crate) fn lower_array_set(
        &mut self,
        arr: &Atom,
        idx: &Atom,
        val: &Atom,
        layout: ValueLayout,
    ) -> (r: Result<Val, CodegenError>)
        ensures
            agrees(old(self)@.array_set(*arr, *idx, *val, layout), final(self)@, r),
    {
        match array_elem_layout(layout, 0, Context::Phrase("array element")) {
            Err(e) => Err(e),
            Ok(ArrayElemLayout::Pointer) => {
                match self.three_cells(arr, idx, val) {
                    Err(e) => Err(e),
                    Ok((a, i, v)) => {
                        self.arg(a);
                        self.arg(i);
                        self.arg(v);
                        self.call_void("locus_gc_array_set_ptr");
                        Ok(const_cell(0))
                    },
                }
            },
            Ok(ArrayElemLayout::Scalar { stride, elem_cells, .. }) => {
                if elem_cells > 1 {
                    return self.array_set_wide(arr, idx, val, stride, elem_cells);
                }
                if let Atom::Var(name) = arr {
                    if let Some(raw) = self.borrowed(arr) {
                        let proved = self.in_bounds(name, idx);
                        return match self.lower_cached_scalar_array_set(
                            raw,
                            idx,
                            val,
                            stride,
                            proved,
                        ) {
                            Err(e) => Err(e),
                            Ok(()) => Ok(const_cell(0)),
                        };
                    }
                }
                match self.three_cells(arr, idx, val) {
                    Err(e) => Err(e),
                    Ok((a, i, v)) => {
                        self.arg(a);
                        self.arg(i);
                        self.arg(const_cell(stride));
                        self.arg(v);
                        self.call_void("locus_gc_array_set_scalar_bytes");
                        Ok(const_cell(0))
                    },
                }
            },
        }
    }
}

} // verus!
