//! Typed index / table abstraction.
//!
//! A profile is a family of parallel tables, each addressed by positions in
//! another table. A position is easy to misuse: a function index handed to
//! the stack table silently reads the wrong record. The types here brand
//! every position with the table it is valid against, so cross-table
//! confusion is a type error.

use core::marker::PhantomData;
use vstd::prelude::*;

verus! {

/// Brand for positions into a sample table.
#[derive(Clone, Copy, Debug, PartialEq, Eq, Hash)]
pub struct IndexSampleTable;

/// Brand for positions into a stack table.
#[derive(Clone, Copy, Debug, PartialEq, Eq, Hash)]
pub struct IndexStackTable;

/// Brand for positions into a frame table.
#[derive(Clone, Copy, Debug, PartialEq, Eq, Hash)]
pub struct IndexFrameTable;

/// Brand for positions into a function table.
#[derive(Clone, Copy, Debug, PartialEq, Eq, Hash)]
pub struct IndexFuncTable;

/// Brand for positions into the shared string table.
#[derive(Clone, Copy, Debug, PartialEq, Eq, Hash)]
pub struct IndexStringTable;

/// A position into the table branded `I`, and into no other table.
#[derive(Debug, PartialEq, Eq, Hash)]
pub struct Id<I> {
    pub idx: usize,
    pub _marker: PhantomData<I>,
}

impl<I> Clone for Id<I> {
    fn clone(&self) -> (r: Self)
        ensures
            r == *self,
    {
        Id { idx: self.idx, _marker: PhantomData }
    }
}

impl<I> Copy for Id<I> {

}

/// A position into a stack table.
pub type StackIdx = Id<IndexStackTable>;
/// A position into a frame table.
pub type FrameIdx = Id<IndexFrameTable>;
/// A position into a function table.
pub type FuncIdx = Id<IndexFuncTable>;
/// A position into the shared string table.
pub type StringIdx = Id<IndexStringTable>;

impl<I> Id<I> {
    /// Brands a raw position.
    pub fn new(id: usize) -> (r: Id<I>)
        ensures
            r.idx == id,
    {
        Id { idx: id, _marker: PhantomData }
    }
}

/// An ordered sequence of `T`, addressable only by positions branded `I`.
#[verifier::ext_equal]
pub struct TypedVec<I, T> {
    pub inner: Vec<T>,
    pub _marker: PhantomData<I>,
}

/// A column of a sample table.
pub type SampleVec<T> = TypedVec<IndexSampleTable, T>;
/// A column of a stack table.
pub type StackVec<T> = TypedVec<IndexStackTable, T>;
/// A column of a frame table.
pub type FrameVec<T> = TypedVec<IndexFrameTable, T>;
/// A column of a function table.
pub type FuncVec<T> = TypedVec<IndexFuncTable, T>;
/// A column of the shared string table.
pub type StringVec<T> = TypedVec<IndexStringTable, T>;

impl<I, T> View for TypedVec<I, T> {
    type V = Seq<T>;

    open spec fn view(&self) -> Seq<T> {
        self.inner@
    }
}

impl<I, T> TypedVec<I, T> {
    /// Wraps an ordered sequence into a branded table column.
    pub fn from_vec(v: Vec<T>) -> (r: TypedVec<I, T>)
        ensures
            r@ == v@,
    {
        TypedVec { inner: v, _marker: PhantomData }
    }

    /// The number of entries.
    pub fn len(&self) -> (r: usize)
        ensures
            r == self@.len(),
    {
        self.inner.len()
    }

    /// Bounds-checked lookup: `None` exactly on an out-of-bounds position.
    pub fn get(&self, id: Id<I>) -> (r: Option<&T>)
        ensures
            match r {
                Some(t) => id.idx < self@.len() && *t == self@[id.idx as int],
                None => id.idx >= self@.len(),
            },
    {
        if id.idx < self.inner.len() {
            Some(&self.inner[id.idx])
        } else {
            None
        }
    }

    /// Lookup of a position already known to be in bounds.
    pub fn index(&self, id: Id<I>) -> (r: &T)
        requires
            id.idx < self@.len(),
        ensures
            *r == self@[id.idx as int],
    {
        &self.inner[id.idx]
    }

    /// In-place update of the entry at an in-bounds position.
    pub fn set(&mut self, id: Id<I>, value: T)
        requires
            id.idx < old(self)@.len(),
        ensures
            final(self)@ == old(self)@.update(id.idx as int, value),
    {
        self.inner.set(id.idx, value);
    }
}

} // verus!
