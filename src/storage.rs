//! A physical buffer with shared ownership and copy-on-write mutation: many
//! tensors (views, broadcasts) may hold one buffer, and a write through one
//! of them never shows through another.
use vstd::prelude::*;
use std::sync::Arc;

verus! {

/// Relies on `Arc::clone`: a new handle to the same allocation, through
/// which the same value is seen.
#[verifier::external_body]
fn arc_share<T>(a: &Arc<Vec<T>>) -> (r: Arc<Vec<T>>)
    ensures
        r@ == a@,
{
    Arc::clone(a)
}

/// Relies on `Arc::make_mut`: it hands out the value for writing, cloning it
/// into a fresh allocation first while other handles share it, so those
/// handles keep the old value; here one element is then written. Elements
/// are `Copy`, so the clone holds the same elements.
#[verifier::external_body]
fn arc_write<T: Copy>(a: &mut Arc<Vec<T>>, i: usize, v: T)
    requires
        i < old(a)@.len(),
    ensures
        final(a)@ == old(a)@.update(i as int, v),
{
    Arc::make_mut(a)[i] = v;
}

/// Relies on `Arc::unwrap_or_clone`: the value itself where this is the
/// only handle, else a clone of it, which other handles do not see. Elements
/// are `Copy`, so the clone holds the same elements.
#[verifier::external_body]
fn arc_into_vec<T: Copy>(a: Arc<Vec<T>>) -> (r: Vec<T>)
    ensures
        r@ == a@,
{
    Arc::unwrap_or_clone(a)
}

/// A handle to a physical buffer of elements, possibly shared with other handles.
pub struct Buffer<T> {
    data: Arc<Vec<T>>,
}

impl<T> View for Buffer<T> {
    type V = Seq<T>;

    closed spec fn view(&self) -> Seq<T> {
        self.data@
    }
}

impl<T: Copy> Buffer<T> {
    /// A buffer that owns `values`.
    pub fn new(values: Vec<T>) -> (r: Buffer<T>)
        ensures
            r@ == values@,
    {
        Buffer { data: Arc::new(values) }
    }

    /// Another handle to the same buffer, seeing the same elements.
    pub fn share(&self) -> (r: Buffer<T>)
        ensures
            r@ == self@,
    {
        Buffer { data: arc_share(&self.data) }
    }

    /// Number of elements.
    pub fn len(&self) -> (r: usize)
        ensures
            r == self@.len(),
    {
        self.data.len()
    }

    /// The element at physical offset `i`.
    pub fn get(&self, i: usize) -> (r: T)
        requires
            i < self@.len(),
        ensures
            r == self@[i as int],
    {
        self.data[i]
    }

    /// The elements as a vector that this handle owns alone, ready for a
    /// kernel to write: the buffer itself where no other handle shares it,
    /// else a copy, so every other handle keeps seeing the old elements.
    pub fn into_vec(self) -> (r: Vec<T>)
        ensures
            r@ == self@,
    {
        arc_into_vec(self.data)
    }

    /// Writes the element at physical offset `i` through this handle only:
    /// where the buffer is shared it is copied first, so every other handle
    /// keeps seeing the old elements.
    pub fn set(&mut self, i: usize, v: T)
        requires
            i < old(self)@.len(),
        ensures
            final(self)@ == old(self)@.update(i as int, v),
    {
        arc_write(&mut self.data, i, v);
    }
}

} // verus!
