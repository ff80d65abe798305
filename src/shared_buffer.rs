use vstd::prelude::*;

verus! {

/// A last-in-first-out store of batches: `pop` hands out the batch pushed last.
/// Callers that share one buffer between threads hold it under a lock.
pub struct SharedBuffer<T> {
    items: Vec<T>,
}

impl<T> View for SharedBuffer<T> {
    type V = Seq<T>;

    /// The batches held, oldest first.
    closed spec fn view(&self) -> Seq<T> {
        self.items@
    }
}

impl<T> SharedBuffer<T> {
    /// An empty buffer.
    pub fn new() -> (r: Self)
        ensures
            r@ == Seq::<T>::empty(),
    {
        SharedBuffer { items: Vec::new() }
    }

    /// A buffer holding `items`, the last of them on top.
    pub fn from_items(items: Vec<T>) -> (r: Self)
        ensures
            r@ == items@,
    {
        SharedBuffer { items }
    }

    /// The batches held, oldest first.
    pub fn items(&self) -> (r: &Vec<T>)
        ensures
            r@ == self@,
    {
        &self.items
    }

    /// Adds a batch on top.
    pub fn push(&mut self, data: T)
        ensures
            final(self)@ == old(self)@.push(data),
    {
        self.items.push(data);
    }

    /// Removes and returns the batch pushed last; nothing when empty.
    pub fn pop(&mut self) -> (r: Option<T>)
        ensures
            old(self)@.len() == 0 ==> r is None && final(self)@ == old(self)@,
            old(self)@.len() > 0 ==> r == Some(old(self)@.last()) && final(self)@ == old(
                self,
            )@.drop_last(),
    {
        self.items.pop()
    }

    /// Pops as `pop` does and also returns how many batches were held before
    /// the pop, both read in one step.
    pub fn pop_with_len(&mut self) -> (r: (Option<T>, usize))
        ensures
            r.1 == old(self)@.len(),
            old(self)@.len() == 0 ==> r.0 is None && final(self)@ == old(self)@,
            old(self)@.len() > 0 ==> r.0 == Some(old(self)@.last()) && final(self)@ == old(
                self,
            )@.drop_last(),
    {
        let n = self.items.len();
        (self.items.pop(), n)
    }

    /// Removes every batch.
    pub fn clear(&mut self)
        ensures
            final(self)@ == Seq::<T>::empty(),
    {
        self.items.clear();
    }

    /// Number of batches held.
    pub fn len(&self) -> (r: usize)
        ensures
            r == self@.len(),
    {
        self.items.len()
    }

    /// Whether no batch is held.
    pub fn is_empty(&self) -> (r: bool)
        ensures
            r == (self@.len() == 0),
    {
        self.items.len() == 0
    }
}

} // verus!
