//! An append-only store that hands out runs of items.

use vstd::prelude::*;
use vstd::slice::slice_subrange;

verus! {

/// A handle to a run of consecutive items of a `SliceArena`.
#[derive(Debug, Clone, Copy, PartialEq, Eq, Structural)]
pub struct ASlice {
    base: usize,
    len: usize,
}

impl ASlice {
    /// Where the run starts.
    pub closed spec fn base_view(&self) -> int {
        self.base as int
    }

    /// How many items the run has.
    pub closed spec fn len_view(&self) -> int {
        self.len as int
    }
}

/// An append-only store of items, handed out in runs.
#[derive(Debug)]
pub struct SliceArena<T> {
    contents: Vec<T>,
}

impl<T> SliceArena<T> {
    /// Everything stored, in order.
    pub closed spec fn view_items(&self) -> Seq<T> {
        self.contents@
    }

    /// An empty arena.
    pub fn new() -> (r: Self)
        ensures
            r.view_items().len() == 0,
    {
        SliceArena { contents: Vec::new() }
    }

    /// Stores `items` at the end, and returns the handle of their run.
    pub fn allocate_slice(&mut self, items: Vec<T>) -> (r: ASlice)
        ensures
            final(self).view_items() == old(self).view_items() + items@,
            r.base_view() == old(self).view_items().len(),
            r.len_view() == items@.len(),
    {
        let base = self.contents.len();
        let mut items = items;
        self.contents.append(&mut items);
        let len = self.contents.len() - base;
        ASlice { base, len }
    }

    /// The items of the run `slice`.
    pub fn borrow_slice(&self, slice: ASlice) -> (r: &[T])
        requires
            slice.base_view() + slice.len_view() <= self.view_items().len(),
        ensures
            r@ == self.view_items().subrange(slice.base_view(), slice.base_view() + slice.len_view()),
    {
        let n = self.contents.len();
        assert(slice.base + slice.len <= n);
        slice_subrange(self.contents.as_slice(), slice.base, slice.base + slice.len)
    }
}

} // verus!
