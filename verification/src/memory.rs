//! Counter storage obtained from an `alloc_no_stdlib` heap allocator.
//!
//! Nothing in this file is proved: each item states what the allocator crate
//! does, and the rest of the crate is verified against these statements.
use vstd::prelude::*;

verus! {

/// `alloc_no_stdlib::HeapAlloc`, the allocator that hands out boxed slices
/// filled with copies of its default value. It is only passed through.
#[verifier::external_type_specification]
#[verifier::external_body]
#[verifier::reject_recursive_types(T)]
pub struct ExHeapAlloc<T: Clone>(alloc_no_stdlib::HeapAlloc<T>);

/// A block of 16-bit counters: the memory type that
/// `alloc_no_stdlib::HeapAlloc<u16>` allocates. The crate does not export that
/// type by name, so it is held here.
#[verifier::external_body]
pub struct CounterCell {
    mem: <alloc_no_stdlib::HeapAlloc<u16> as alloc_no_stdlib::Allocator<u16>>::AllocatedMemory,
}

/// The counters that a cell holds, in order.
pub uninterp spec fn cell_contents(cell: CounterCell) -> Seq<u16>;

/// `Allocator::alloc_cell` on a `HeapAlloc<u16>`: a fresh cell of `len`
/// counters. Their initial values are the allocator's default value and are
/// not stated here. `HeapAlloc` builds a `Vec` of `len` elements, which panics
/// when the byte size of it exceeds `isize::MAX`; the bound on `len` keeps
/// clear of that.
#[verifier::external_body]
pub(crate) fn alloc_cell(m: &mut alloc_no_stdlib::HeapAlloc<u16>, len: usize) -> (cell: CounterCell)
    requires
        len <= 0x3fff_ffff,
    ensures
        cell_contents(cell).len() == len,
{
    CounterCell { mem: alloc_no_stdlib::Allocator::alloc_cell(m, len) }
}

/// `Allocator::free_cell` on a `HeapAlloc<u16>`: gives the cell back. It drops
/// the memory and returns nothing.
#[verifier::external_body]
pub(crate) fn free_cell(m: &mut alloc_no_stdlib::HeapAlloc<u16>, cell: CounterCell) {
    alloc_no_stdlib::Allocator::free_cell(m, cell.mem)
}

/// `Default::default` of the allocator's memory type: the empty cell, made of
/// an empty `Vec` turned into a boxed slice.
#[verifier::external_body]
pub(crate) fn empty_cell() -> (cell: CounterCell)
    ensures
        cell_contents(cell).len() == 0,
{
    CounterCell { mem: Default::default() }
}

/// `SliceWrapper::slice` of the memory type: the counters as a shared slice.
#[verifier::external_body]
pub(crate) fn cell_slice(cell: &CounterCell) -> (s: &[u16])
    ensures
        s@ == cell_contents(*cell),
{
    alloc_no_stdlib::SliceWrapper::slice(&cell.mem)
}

/// `SliceWrapperMut::slice_mut` of the memory type: the counters as a mutable
/// slice. What is written through the slice is what the cell holds afterwards.
#[verifier::external_body]
pub(crate) fn cell_slice_mut(cell: &mut CounterCell) -> (s: &mut [u16])
    ensures
        s@ == cell_contents(*old(cell)),
        cell_contents(*final(cell)) == final(s)@,
{
    alloc_no_stdlib::SliceWrapperMut::slice_mut(&mut cell.mem)
}

} // verus!
