//! Tuples, records and reference cells on the managed heap; mutable locals.
use crate::error::{CodegenError, Context};
use crate::heap::agrees_cells;
use crate::ir::{allocate, pointer_to, share, Atom, Field, Type, ValueLayout};
use crate::layout::{field_region, region_of, FieldRegion};
use crate::state::{agrees, agrees_unit, cell_of, expect_cell, Cg, Cx, Out, Scope, St};
use crate::target::{const_cell, constant, Cmd, Title, Ty, Val};
use std::rc::Rc;
use vstd::prelude::*;

verus! {

/// A field's value and where it goes.
#[derive(Clone, Copy, Debug, PartialEq, Eq, Structural)]
pub struct FieldVal {
    pub value: Val,
    pub region: FieldRegion,
}

/// How many pointer cells the first `n` fields take.
pub open spec fn pointer_count(fields: Seq<FieldVal>, n: nat) -> nat
    decreases n,
{
    if n == 0 || n > fields.len() {
        0
    } else {
        pointer_count(fields, (n - 1) as nat) + if fields[n - 1].region is Pointer {
            1nat
        } else {
            0nat
        }
    }
}

/// How many scalar cells the first `n` fields take.
pub open spec fn scalar_count(fields: Seq<FieldVal>, n: nat) -> nat
    decreases n,
{
    if n == 0 || n > fields.len() {
        0
    } else {
        scalar_count(fields, (n - 1) as nat) + match fields[n - 1].region {
            FieldRegion::Pointer { .. } => 0nat,
            FieldRegion::Scalar { cells } => cells as nat,
        }
    }
}

proof fn lemma_counts(fields: Seq<FieldVal>, i: nat, j: nat)
    requires
        i <= j <= fields.len(),
    ensures
        pointer_count(fields, i) <= pointer_count(fields, j) <= j,
        scalar_count(fields, i) <= scalar_count(fields, j),
    decreases j,
{
    if i < j {
        lemma_counts(fields, i, (j - 1) as nat);
    } else if j > 0 {
        lemma_counts(fields, (j - 1) as nat, (j - 1) as nat);
    }
}

/// The cells of two fields of an object do not overlap, and all lie inside it:
/// pointer cells among its pointer cells, scalar cells among its scalar cells.
pub proof fn fields_are_disjoint(fields: Seq<FieldVal>, i: nat, j: nat)
    requires
        i < j < fields.len(),
    ensures
        (fields[i as int].region is Pointer && fields[j as int].region is Pointer)
            ==> pointer_count(fields, i) < pointer_count(fields, j) < pointer_count(
            fields,
            fields.len(),
        ),
        (fields[i as int].region matches FieldRegion::Scalar { cells: a } && (
        fields[j as int].region matches FieldRegion::Scalar { cells: b } && scalar_count(fields, i)
            + a <= scalar_count(fields, j) && scalar_count(fields, j) + b <= scalar_count(
            fields,
            fields.len(),
        ))) || !(fields[i as int].region is Scalar) || !(fields[j as int].region is Scalar),
{
    lemma_counts(fields, i + 1, j);
    lemma_counts(fields, j + 1, fields.len());
}

impl St {
    // ── tuples and records ───────────────────────────────────────────────
    /// The values of the fields from position `i` on, behind those already done.
    pub open spec fn field_vals(self, fields: Seq<Field>, i: nat, done: Seq<FieldVal>) -> Result<
        (St, Seq<FieldVal>),
        CodegenError,
    >
        decreases fields.len() - i,
    {
        if i >= fields.len() {
            Ok((self, done))
        } else {
            match region_of(fields[i as int].layout, Context::Phrase("managed object field")) {
                Err(e) => Err(e),
                Ok(region) => match self.atom(fields[i as int].value) {
                    Err(e) => Err(e),
                    Ok((st, value)) => st.field_vals(
                        fields,
                        i + 1,
                        done.push(FieldVal { value, region }),
                    ),
                },
            }
        }
    }

    /// Store the first `n` words into the scalar cells from `base` on.
    pub open spec fn set_words(self, obj: Val, base: nat, words: Seq<Val>, n: nat) -> St
        decreases n,
    {
        if n == 0 {
            self
        } else {
            self.set_words(obj, base, words, (n - 1) as nat).gc_set_scalar(
                obj,
                (base + n - 1) as u64,
                words[n - 1],
            )
        }
    }

    /// Store the fields from position `i` on, each behind the cells of those
    /// before it.
    pub open spec fn set_fields(self, obj: Val, fields: Seq<FieldVal>, i: nat) -> Result<
        St,
        CodegenError,
    >
        decreases fields.len() - i,
    {
        if i >= fields.len() {
            Ok(self)
        } else {
            match fields[i as int].region {
                FieldRegion::Pointer { word } => match cell_of(
                    fields[i as int].value,
                    "managed object field",
                ) {
                    Err(e) => Err(e),
                    Ok(v) => self.gc_set_traced(
                        obj,
                        pointer_count(fields, i) as u64,
                        v,
                        word,
                    ).set_fields(obj, fields, i + 1),
                },
                FieldRegion::Scalar { cells } => match self.value_to_cells(
                    fields[i as int].value,
                    cells,
                    "managed object field",
                ) {
                    Err(e) => Err(e),
                    Ok((st, words)) => st.set_words(
                        obj,
                        scalar_count(fields, i),
                        words,
                        words.len(),
                    ).set_fields(obj, fields, i + 1),
                },
            }
        }
    }

    /// A tuple or record: the fields are evaluated, the object is allocated with
    /// its pointer cells first and its scalar cells behind, and filled.
    pub open spec fn tuple(self, fields: Seq<Field>) -> Out {
        match self.field_vals(fields, 0, Seq::empty()) {
            Err(e) => Err(e),
            Ok((st, vals)) => if scalar_count(vals, vals.len()) > u64::MAX {
                Err(CodegenError::TooManyCells)
            } else {
                let (st, obj) = st.gc_alloc(
                    pointer_count(vals, vals.len()) as u64,
                    scalar_count(vals, vals.len()) as u64,
                );
                match st.set_fields(obj, vals, 0) {
                    Err(e) => Err(e),
                    Ok(st) => Ok((st, obj)),
                }
            },
        }
    }

    /// Read `n` scalar cells of an object from `base` on.
    pub open spec fn get_words(self, obj: Val, base: nat, n: nat) -> (St, Seq<Val>)
        decreases n,
    {
        if n == 0 {
            (self, Seq::empty())
        } else {
            let (st, words) = self.get_words(obj, base, (n - 1) as nat);
            let (st, word) = st.gc_get_scalar(obj, (base + n - 1) as u64);
            (st, words.push(word))
        }
    }

    /// A field of an object.
    pub open spec fn proj(self, tup: Atom, slot: usize, layout: ValueLayout, ty: Rc<Type>) -> Out {
        match self.cell(tup, "managed object handle") {
            Err(e) => Err(e),
            Ok((st, obj)) => match region_of(layout, Context::Phrase("projected field")) {
                Err(e) => Err(e),
                Ok(FieldRegion::Pointer { word }) => Ok(st.gc_get_traced(obj, slot as u64, word)),
                Ok(FieldRegion::Scalar { cells }) => if slot + cells > u64::MAX {
                    Err(CodegenError::TooManyCells)
                } else {
                    let (st, words) = st.get_words(obj, slot as nat, cells as nat);
                    st.cells_to_value(ty, words, "projected field")
                },
            },
        }
    }

    // ── reference cells ──────────────────────────────────────────────────
    /// A new reference cell.
    pub open spec fn ref_new(self, init: Atom, layout: ValueLayout) -> Out {
        match self.atom(init) {
            Err(e) => Err(e),
            Ok((st, value)) => match region_of(layout, Context::Phrase("ref cell")) {
                Err(e) => Err(e),
                Ok(FieldRegion::Pointer { .. }) => Err(CodegenError::PointerRefNew),
                Ok(FieldRegion::Scalar { cells }) => {
                    let (st, obj) = st.gc_alloc(0, cells);
                    match st.value_to_cells(value, cells, "ref cell") {
                        Err(e) => Err(e),
                        Ok((st, words)) => Ok((st.set_words(obj, 0, words, words.len()), obj)),
                    }
                },
            },
        }
    }

    /// What a reference cell holds.
    pub open spec fn ref_get(self, r: Atom, layout: ValueLayout) -> Out {
        match self.cell(r, "ref handle") {
            Err(e) => Err(e),
            Ok((st, obj)) => match region_of(layout, Context::Phrase("ref cell")) {
                Err(e) => Err(e),
                Ok(FieldRegion::Pointer { .. }) => Err(CodegenError::PointerRefGet),
                Ok(FieldRegion::Scalar { cells }) => {
                    let (st, words) = st.get_words(obj, 0, cells as nat);
                    st.cells_to_value(pointer_to(Type::Int), words, "ref cell")
                },
            },
        }
    }

    /// A new value for a reference cell.
    pub open spec fn ref_set(self, r: Atom, val: Atom, layout: ValueLayout) -> Out {
        match self.cell(r, "ref handle") {
            Err(e) => Err(e),
            Ok((st, obj)) => match st.atom(val) {
                Err(e) => Err(e),
                Ok((st, value)) => match region_of(layout, Context::Phrase("ref cell")) {
                    Err(e) => Err(e),
                    Ok(FieldRegion::Pointer { .. }) => Err(CodegenError::PointerRefSet),
                    Ok(FieldRegion::Scalar { cells }) => match st.value_to_cells(
                        value,
                        cells,
                        "ref cell",
                    ) {
                        Err(e) => Err(e),
                        Ok((st, words)) => Ok(
                            (st.set_words(obj, 0, words, words.len()), constant(0)),
                        ),
                    },
                },
            },
        }
    }

    // ── mutable locals ───────────────────────────────────────────────────
    /// A mutable local: one stack slot in the function's first block.
    pub open spec fn slot_init(self, name: String, init: Atom) -> Out {
        match self.cell(init, "mutable-local initializer") {
            Err(e) => Err(e),
            Ok((st, v)) => {
                let (st, slot) = st.def(
                    Cmd::EntryAlloca {
                        func: st.cx.func,
                        label: Title::Var { before: "mut.", name, after: "" },
                    },
                    Ty::Ptr,
                );
                let st = st.store(slot, v);
                Ok(
                    (
                        St {
                            script: st.script,
                            cx: Cx {
                                slots: Rc::new(
                                    Scope::More { name, item: slot, rest: st.cx.slots },
                                ),
                                ..st.cx
                            },
                        },
                        constant(0),
                    ),
                )
            },
        }
    }

    /// The current value of a mutable local.
    pub open spec fn slot_load(self, name: String) -> Out {
        match self.cx.slots.get(name@) {
            None => Err(CodegenError::SlotRead(name)),
            Some(slot) => Ok(
                self.load_as(Ty::I64, slot, Title::Var { before: "", name, after: ".load" }),
            ),
        }
    }

    /// A new value for a mutable local.
    pub open spec fn slot_store(self, name: String, val: Atom) -> Out {
        match self.cell(val, "mutable-local assignment") {
            Err(e) => Err(e),
            Ok((st, v)) => match st.cx.slots.get(name@) {
                None => Err(CodegenError::SlotWrite(name)),
                Some(slot) => Ok((st.store(slot, v), constant(0))),
            },
        }
    }
}

proof fn lemma_read_cells_len(st: St, ptr: Val, n: nat, slot: &'static str, cell: &'static str)
    ensures
        st.read_cells(ptr, n, slot, cell).1.len() == n,
    decreases n,
{
    if n > 0 {
        lemma_read_cells_len(st, ptr, (n - 1) as nat, slot, cell);
    }
}

proof fn lemma_words_len(st: St, v: Val, cells: u64, context: &'static str)
    ensures
        st.value_to_cells(v, cells, context) matches Ok((_, words)) ==> words.len() == cells,
{
    if cells != 1 {
        let (s, ptr) = st.def(Cmd::Alloca { ty: v.ty, label: "scalar.spill" }, Ty::Ptr);
        let s = s.store(ptr, v);
        lemma_read_cells_len(s, ptr, cells as nat, "scalar.spill.slot", "scalar.spill.cell");
    }
}

impl Cg {
    /// The words of a value, with their number.
    fn words_of(&mut self, v: Val, cells: u64, context: &'static str) -> (r: Result<
        Vec<Val>,
        CodegenError,
    >)
        ensures
            agrees_cells(old(self)@.value_to_cells(v, cells, context), final(self)@, r),
            r matches Ok(words) ==> words@.len() == cells,
    {
        proof {
            lemma_words_len(self@, v, cells, context);
        }
        self.scalar_value_to_cells(v, cells, context)
    }

    fn field_vals(&mut self, fields: &Vec<Field>) -> (r: Result<Vec<FieldVal>, CodegenError>)
        ensures
            match old(self)@.field_vals(fields@, 0, Seq::empty()) {
                Ok((st, vals)) => final(self)@ == st && r is Ok && r->Ok_0@ == vals,
                Err(e) => r == Err::<Vec<FieldVal>, CodegenError>(e),
            },
    {
        let mut done: Vec<FieldVal> = Vec::new();
        let mut i: usize = 0;
        assert(done@ =~= Seq::empty());
        while i < fields.len()
            invariant
                i <= fields.len(),
                self@.field_vals(fields@, i as nat, done@) == old(self)@.field_vals(
                    fields@,
                    0,
                    Seq::empty(),
                ),
            decreases fields.len() - i,
        {
            let region = match field_region(
                fields[i].layout,
                Context::Phrase("managed object field"),
            ) {
                Err(e) => {
                    return Err(e);
                },
                Ok(region) => region,
            };
            let value = match self.lower_atom(&fields[i].value) {
                Err(e) => {
                    return Err(e);
                },
                Ok(value) => value,
            };
            done.push(FieldVal { value, region });
            i = i + 1;
        }
        Ok(done)
    }

    pub(crate) fn set_words(&mut self, obj: Val, base: u64, words: &Vec<Val>)
        requires
            base + words@.len() <= u64::MAX,
        ensures
            final(self)@ == old(self)@.set_words(obj, base as nat, words@, words@.len()),
    {
        let mut k: usize = 0;
        while k < words.len()
            invariant
                k <= words.len(),
                base + words@.len() <= u64::MAX,
                self@ == old(self)@.set_words(obj, base as nat, words@, k as nat),
            decreases words.len() - k,
        {
            self.gc_set_scalar(obj, base + k as u64, words[k]);
            k = k + 1;
        }
    }

    fn set_fields(&mut self, obj: Val, fields: &Vec<FieldVal>) -> (r: Result<(), CodegenError>)
        requires
            scalar_count(fields@, fields@.len()) <= u64::MAX,
        ensures
            agrees_unit(old(self)@.set_fields(obj, fields@, 0), final(self)@, r),
    {
        let mut pi: u64 = 0;
        let mut si: u64 = 0;
        let mut i: usize = 0;
        while i < fields.len()
            invariant
                i <= fields.len(),
                scalar_count(fields@, fields@.len()) <= u64::MAX,
                pi == pointer_count(fields@, i as nat),
                si == scalar_count(fields@, i as nat),
                self@.set_fields(obj, fields@, i as nat) == old(self)@.set_fields(obj, fields@, 0),
            decreases fields.len() - i,
        {
            proof {
                lemma_counts(fields@, (i + 1) as nat, fields@.len());
                lemma_counts(fields@, i as nat, (i + 1) as nat);
            }
            match fields[i].region {
                FieldRegion::Pointer { word } => {
                    match expect_cell(fields[i].value, "managed object field") {
                        Err(e) => {
                            return Err(e);
                        },
                        Ok(v) => {
                            self.gc_set_traced(obj, pi, v, word);
                            pi = pi + 1;
                        },
                    }
                },
                FieldRegion::Scalar { cells } => {
                    match self.words_of(fields[i].value, cells, "managed object field") {
                        Err(e) => {
                            return Err(e);
                        },
                        Ok(words) => {
                            self.set_words(obj, si, &words);
                            si = si + cells;
                        },
                    }
                },
            }
            i = i + 1;
        }
        Ok(())
    }

    /// How many pointer cells and how many scalar cells the fields take, unless
    /// that is too many to count.
    fn count_cells(fields: &Vec<FieldVal>) -> (r: Option<(u64, u64)>)
        ensures
            match r {
                Some((p, s)) => p == pointer_count(fields@, fields@.len()) && s == scalar_count(
                    fields@,
                    fields@.len(),
                ),
                None => scalar_count(fields@, fields@.len()) > u64::MAX,
            },
    {
        let mut p: u64 = 0;
        let mut s: u64 = 0;
        let mut i: usize = 0;
        while i < fields.len()
            invariant
                i <= fields.len(),
                p == pointer_count(fields@, i as nat),
                s == scalar_count(fields@, i as nat),
            decreases fields.len() - i,
        {
            proof {
                lemma_counts(fields@, (i + 1) as nat, fields@.len());
            }
            match fields[i].region {
                FieldRegion::Pointer { .. } => {
                    proof {
                        lemma_counts(fields@, i as nat, (i + 1) as nat);
                    }
                    p = p + 1;
                },
                FieldRegion::Scalar { cells } => {
                    match s.checked_add(cells) {
                        None => {
                            return None;
                        },
                        Some(n) => {
                            s = n;
                        },
                    }
                },
            }
            i = i + 1;
        }
        Some((p, s))
    }

    /// A tuple or record.
    pub(crate) fn lower_tuple(&mut self, fields: &Vec<Field>) -> (r: Result<Val, CodegenError>)
        ensures
            agrees(old(self)@.tuple(fields@), final(self)@, r),
    {
        let vals = match self.field_vals(fields) {
            Err(e) => {
                return Err(e);
            },
            Ok(vals) => vals,
        };
        match Self::count_cells(&vals) {
            None => Err(CodegenError::TooManyCells),
            Some((p, s)) => {
                let obj = self.gc_alloc(p, s);
                match self.set_fields(obj, &vals) {
                    Err(e) => Err(e),
                    Ok(()) => Ok(obj),
                }
            },
        }
    }

    pub(crate) fn get_words(&mut self, obj: Val, base: u64, n: u64) -> (r: Vec<Val>)
        requires
            base + n <= u64::MAX,
        ensures
            (final(self)@, r@) == old(self)@.get_words(obj, base as nat, n as nat),
    {
        let mut out: Vec<Val> = Vec::new();
        let mut k: u64 = 0;
        while k < n
            invariant
                k <= n,
                base + n <= u64::MAX,
                (self@, out@) == old(self)@.get_words(obj, base as nat, k as nat),
            decreases n - k,
        {
            let word = self.gc_get_scalar(obj, base + k);
            out.push(word);
            k = k + 1;
        }
        out
    }

    /// A field of an object.
    pub(crate) fn lower_proj(
        &mut self,
        tup: &Atom,
        slot: usize,
        layout: ValueLayout,
        ty: &Rc<Type>,
    ) -> (r: Result<Val, CodegenError>)
        ensures
            agrees(old(self)@.proj(*tup, slot, layout, *ty), final(self)@, r),
    {
        let obj = match self.lower_cell(tup, "managed object handle") {
            Err(e) => {
                return Err(e);
            },
            Ok(obj) => obj,
        };
        match field_region(layout, Context::Phrase("projected field")) {
            Err(e) => Err(e),
            Ok(FieldRegion::Pointer { word }) => Ok(self.gc_get_traced(obj, slot as u64, word)),
            Ok(FieldRegion::Scalar { cells }) => {
                let first: u64 = slot as u64;
                match first.checked_add(cells) {
                    None => Err(CodegenError::TooManyCells),
                    Some(_) => {
                        let words = self.get_words(obj, first, cells);
                        self.scalar_cells_to_value(ty, &words, "projected field")
                    },
                }
            },
        }
    }

    /// A new reference cell.
    pub(crate) fn lower_ref_new(&mut self, init: &Atom, layout: ValueLayout) -> (r: Result<
        Val,
        CodegenError,
    >)
        ensures
            agrees(old(self)@.ref_new(*init, layout), final(self)@, r),
    {
        let value = match self.lower_atom(init) {
            Err(e) => {
                return Err(e);
            },
            Ok(value) => value,
        };
        match field_region(layout, Context::Phrase("ref cell")) {
            Err(e) => Err(e),
            Ok(FieldRegion::Pointer { .. }) => Err(CodegenError::PointerRefNew),
            Ok(FieldRegion::Scalar { cells }) => {
                let obj = self.gc_alloc(0, cells);
                match self.words_of(value, cells, "ref cell") {
                    Err(e) => Err(e),
                    Ok(words) => {
                        self.set_words(obj, 0, &words);
                        Ok(obj)
                    },
                }
            },
        }
    }

    /// What a reference cell holds.
    pub(crate) fn lower_ref_get(&mut self, r: &Atom, layout: ValueLayout) -> (out: Result<
        Val,
        CodegenError,
    >)
        ensures
            agrees(old(self)@.ref_get(*r, layout), final(self)@, out),
    {
        let obj = match self.lower_cell(r, "ref handle") {
            Err(e) => {
                return Err(e);
            },
            Ok(obj) => obj,
        };
        match field_region(layout, Context::Phrase("ref cell")) {
            Err(e) => Err(e),
            Ok(FieldRegion::Pointer { .. }) => Err(CodegenError::PointerRefGet),
            Ok(FieldRegion::Scalar { cells }) => {
                let words = self.get_words(obj, 0, cells);
                let ty = allocate(Type::Int);
                self.scalar_cells_to_value(&ty, &words, "ref cell")
            },
        }
    }

    /// A new value for a reference cell.
    pub(crate) fn lower_ref_set(&mut self, r: &Atom, val: &Atom, layout: ValueLayout) -> (out: Result<
        Val,
        CodegenError,
    >)
        ensures
            agrees(old(self)@.ref_set(*r, *val, layout), final(self)@, out),
    {
        let obj = match self.lower_cell(r, "ref handle") {
            Err(e) => {
                return Err(e);
            },
            Ok(obj) => obj,
        };
        let value = match self.lower_atom(val) {
            Err(e) => {
                return Err(e);
            },
            Ok(value) => value,
        };
        match field_region(layout, Context::Phrase("ref cell")) {
            Err(e) => Err(e),
            Ok(FieldRegion::Pointer { .. }) => Err(CodegenError::PointerRefSet),
            Ok(FieldRegion::Scalar { cells }) => {
                match self.words_of(value, cells, "ref cell") {
                    Err(e) => Err(e),
                    Ok(words) => {
                        self.set_words(obj, 0, &words);
                        Ok(const_cell(0))
                    },
                }
            },
        }
    }

    /// A mutable local.
    pub(crate) fn lower_slot_init(&mut self, name: &String, init: &Atom) -> (r: Result<
        Val,
        CodegenError,
    >)
        ensures
            agrees(old(self)@.slot_init(*name, *init), final(self)@, r),
    {
        let v = match self.lower_cell(init, "mutable-local initializer") {
            Err(e) => {
                return Err(e);
            },
            Ok(v) => v,
        };
        let label = Title::Var { before: "mut.", name: name.clone(), after: "" };
        let slot = self.def(Cmd::EntryAlloca { func: self.cx.func, label }, Ty::Ptr);
        self.store(slot, v);
        let rest = share(&self.cx.slots);
        self.cx.slots = Rc::new(Scope::More { name: name.clone(), item: slot, rest });
        Ok(const_cell(0))
    }

    /// The current value of a mutable local.
    pub(crate) fn lower_slot_load(&mut self, name: &String) -> (r: Result<Val, CodegenError>)
        ensures
            agrees(old(self)@.slot_load(*name), final(self)@, r),
    {
        let slot = match self.cx.slots.find(name) {
            None => {
                return Err(CodegenError::SlotRead(name.clone()));
            },
            Some(slot) => *slot,
        };
        let label = Title::Var { before: "", name: name.clone(), after: ".load" };
        Ok(self.load_as(Ty::I64, slot, label))
    }

    /// A new value for a mutable local.
    pub(crate) fn lower_slot_store(&mut self, name: &String, val: &Atom) -> (r: Result<
        Val,
        CodegenError,
    >)
        ensures
            agrees(old(self)@.slot_store(*name, *val), final(self)@, r),
    {
        let v = match self.lower_cell(val, "mutable-local assignment") {
            Err(e) => {
                return Err(e);
            },
            Ok(v) => v,
        };
        let slot = match self.cx.slots.find(name) {
            None => {
                return Err(CodegenError::SlotWrite(name.clone()));
            },
            Some(slot) => *slot,
        };
        self.store(slot, v);
        Ok(const_cell(0))
    }
}

} // verus!
