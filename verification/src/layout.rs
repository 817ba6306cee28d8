//! Where the cells of a value live: object fields, array elements, closure
//! captures and loop accumulators.
use crate::error::{CodegenError, Context};
use crate::ir::{cells_for, LoopVar, Type, ValueLayout};
use std::rc::Rc;
use vstd::prelude::*;

verus! {

/// Which region a managed-object field lives in, and how many contiguous cells
/// of that region it spans.
#[derive(Clone, Copy, Debug, PartialEq, Eq, Structural)]
pub enum FieldRegion {
    /// One traced pointer cell; `word` when its word is stored verbatim.
    Pointer { word: bool },
    /// `cells` contiguous untraced scalar cells.
    Scalar { cells: u64 },
}

/// The region of a field, or the error that names `context`.
pub open spec fn region_of(layout: ValueLayout, context: Context) -> Result<
    FieldRegion,
    CodegenError,
> {
    if layout.single_pointer() {
        Ok(FieldRegion::Pointer { word: layout.word })
    } else if layout.scalar_only() {
        Ok(FieldRegion::Scalar { cells: layout.scalar_cells as u64 })
    } else if !layout.known {
        Err(CodegenError::UnknownLayout(context))
    } else {
        Err(CodegenError::MixedField(context, layout))
    }
}

/// Classify a managed-object field: a pointer or word cell is one traced cell, a
/// scalar layout spans its scalar cells. An undecided or mixed layout is refused.
pub fn field_region(layout: ValueLayout, context: Context) -> (r: Result<FieldRegion, CodegenError>)
    ensures
        r == region_of(layout, context),
{
    if layout.is_single_pointer_cell() {
        Ok(FieldRegion::Pointer { word: layout.is_word_cell() })
    } else if layout.is_scalar_only() {
        Ok(FieldRegion::Scalar { cells: layout.scalar_cells as u64 })
    } else if !layout.known {
        Err(CodegenError::UnknownLayout(context))
    } else {
        Err(CodegenError::MixedField(context, layout))
    }
}

/// Whether a captured value is a traced pointer, or the error that names `context`.
pub open spec fn captured_as_pointer(layout: ValueLayout, context: Context) -> Result<
    bool,
    CodegenError,
> {
    if layout.single_pointer() {
        Ok(true)
    } else if layout.scalar_only() {
        Ok(false)
    } else if !layout.known {
        Err(CodegenError::UnknownLayout(context))
    } else {
        Err(CodegenError::MixedLayout(context, layout))
    }
}

/// Whether a captured value is a traced pointer.
pub fn capture_pointer(layout: ValueLayout, context: Context) -> (r: Result<bool, CodegenError>)
    ensures
        r == captured_as_pointer(layout, context),
{
    if layout.is_single_pointer_cell() {
        Ok(true)
    } else if layout.is_scalar_only() {
        Ok(false)
    } else if !layout.known {
        Err(CodegenError::UnknownLayout(context))
    } else {
        Err(CodegenError::MixedLayout(context, layout))
    }
}

/// How many cells a captured value takes, or the error that names `context`.
pub open spec fn captured_cells(layout: ValueLayout, context: Context) -> Result<
    u64,
    CodegenError,
> {
    if layout.single_pointer() {
        Ok(1)
    } else if layout.scalar_only() {
        Ok(layout.scalar_cells as u64)
    } else if !layout.known {
        Err(CodegenError::UnknownLayout(context))
    } else {
        Err(CodegenError::MixedLayout(context, layout))
    }
}

/// How many cells a captured value takes.
pub fn capture_cells(layout: ValueLayout, context: Context) -> (r: Result<u64, CodegenError>)
    ensures
        r == captured_cells(layout, context),
{
    if layout.is_single_pointer_cell() {
        Ok(1)
    } else if layout.is_scalar_only() {
        Ok(layout.scalar_cells as u64)
    } else if !layout.known {
        Err(CodegenError::UnknownLayout(context))
    } else {
        Err(CodegenError::MixedLayout(context, layout))
    }
}

/// A loop accumulator of this layout is kept in a collector root.
pub open spec fn rooted(layout: ValueLayout) -> bool {
    layout.single_pointer() && !layout.word
}

/// Whether a loop accumulator of this layout is kept in a collector root.
pub fn loop_var_uses_root(layout: ValueLayout) -> (r: bool)
    ensures
        r == rooted(layout),
{
    layout.is_single_pointer_cell() && !layout.is_word_cell()
}

/// How a loop accumulator is carried around the loop.
#[derive(Clone, Copy, Debug, PartialEq, Eq, Structural)]
pub enum LoopVarStorage {
    /// In a phi.
    Scalar,
    /// In a collector root.
    HandleRoot,
}

/// How `var` is carried, or why it cannot be.
pub open spec fn storage_of(var: LoopVar) -> Result<LoopVarStorage, CodegenError> {
    if var.layout.scalar_only() {
        Ok(LoopVarStorage::Scalar)
    } else if rooted(var.layout) {
        Ok(LoopVarStorage::HandleRoot)
    } else if !var.layout.known {
        Err(CodegenError::LoopVarUnknown(var.name))
    } else if var.layout.word_cell_only() {
        Err(CodegenError::LoopVarWord(var.name))
    } else {
        Err(CodegenError::LoopVarMixed(var.name, var.layout))
    }
}

/// How a loop accumulator is carried around the loop.
pub fn loop_var_storage(var: &LoopVar) -> (r: Result<LoopVarStorage, CodegenError>)
    ensures
        r == storage_of(*var),
{
    if var.layout.is_scalar_only() {
        Ok(LoopVarStorage::Scalar)
    } else if loop_var_uses_root(var.layout) {
        Ok(LoopVarStorage::HandleRoot)
    } else if !var.layout.known {
        Err(CodegenError::LoopVarUnknown(var.name.clone()))
    } else if var.layout.is_word_cell() {
        Err(CodegenError::LoopVarWord(var.name.clone()))
    } else {
        Err(CodegenError::LoopVarMixed(var.name.clone(), var.layout))
    }
}

/// How the elements of an array are stored.
#[derive(Clone, Copy, Debug, PartialEq, Eq, Structural)]
pub enum ArrayElemLayout {
    /// One traced slot per element.
    Pointer,
    /// `stride` bytes per element in an untraced payload of `data_cells` cells;
    /// an element wider than a cell takes `elem_cells` whole cells.
    Scalar { stride: u64, data_cells: u64, elem_cells: u64 },
}

/// The storage of an array of `len` elements, or why it has none.
pub open spec fn elem_layout_of(layout: ValueLayout, len: usize, context: Context) -> Result<
    ArrayElemLayout,
    CodegenError,
> {
    if layout.single_pointer() {
        Ok(ArrayElemLayout::Pointer)
    } else if !layout.known {
        Err(CodegenError::UnknownLayout(context))
    } else if !layout.scalar_only() {
        Err(CodegenError::MixedLayout(context, layout))
    } else if layout.byte_width == 0 || (layout.byte_width > 8 && layout.byte_width % 8 != 0) {
        Err(CodegenError::ArrayStride(context, layout.byte_width))
    } else if layout.byte_width * len > usize::MAX {
        Err(CodegenError::ArraySizeOverflow(context))
    } else {
        Ok(
            ArrayElemLayout::Scalar {
                stride: layout.byte_width as u64,
                data_cells: cells_for(layout.byte_width * len) as u64,
                elem_cells: cells_for(layout.byte_width as int) as u64,
            },
        )
    }
}

/// The number of 8-byte cells that hold `bytes` bytes.
fn cell_count(bytes: usize) -> (r: u64)
    ensures
        r == cells_for(bytes as int),
{
    (bytes / 8 + if bytes % 8 == 0 { 0 } else { 1 }) as u64
}

/// The storage of an array of `len` elements of one layout. A width of 1, 2 or 4
/// bytes packs several elements into a cell; a width over 8 must be whole cells.
pub fn array_elem_layout(layout: ValueLayout, len: usize, context: Context) -> (r: Result<
    ArrayElemLayout,
    CodegenError,
>)
    ensures
        r == elem_layout_of(layout, len, context),
{
    if layout.is_single_pointer_cell() {
        return Ok(ArrayElemLayout::Pointer);
    }
    if !layout.known {
        return Err(CodegenError::UnknownLayout(context));
    }
    if !layout.is_scalar_only() {
        return Err(CodegenError::MixedLayout(context, layout));
    }
    let byte_width: usize = layout.byte_width;
    if byte_width == 0 || (byte_width > 8 && byte_width % 8 != 0) {
        return Err(CodegenError::ArrayStride(context, byte_width));
    }
    let elem_cells: u64 = cell_count(byte_width);
    match byte_width.checked_mul(len) {
        None => Err(CodegenError::ArraySizeOverflow(context)),
        Some(bytes) => Ok(
            ArrayElemLayout::Scalar {
                stride: byte_width as u64,
                data_cells: cell_count(bytes),
                elem_cells,
            },
        ),
    }
}

/// A value captured by a closure, and the slots that hold it.
#[derive(Debug)]
pub struct CaptureInfo {
    pub name: String,
    pub ty: Rc<Type>,
    pub layout: ValueLayout,
    /// Its first slot in a managed closure: a pointer slot for a traced value, a
    /// scalar slot otherwise.
    pub gc_slot: u64,
    /// Its first slot in a closure block outside the managed heap.
    pub raw_slot: u64,
}

} // verus!
