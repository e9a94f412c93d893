//! Component storage: for one kind of component, the value that each slot
//! holds, if any.

use vstd::prelude::*;

verus! {

/// A dense store of components, one place per entity slot.
pub struct Storage<T> {
    pub(crate) slots: Vec<Option<T>>,
}

impl<T: Copy> Storage<T> {
    /// The components held, by slot.
    pub closed spec fn view(&self) -> Map<int, T> {
        Map::new(|k: int| 0 <= k < self.slots.len() && self.slots[k] is Some, |k: int| self.slots[k].unwrap())
    }

    /// The component of slot `k`, if it has one.
    pub open spec fn at(&self, k: int) -> Option<T> {
        if self@.contains_key(k) {
            Some(self@[k])
        } else {
            None
        }
    }

    /// A store that holds nothing.
    pub fn new() -> (s: Self)
        ensures
            s@ == Map::<int, T>::empty(),
    {
        let s = Storage { slots: Vec::new() };
        assert(s@ =~= Map::<int, T>::empty());
        s
    }

    /// The component of slot `k`, if it has one.
    pub fn get(&self, k: usize) -> (r: Option<T>)
        ensures
            r == self.at(k as int),
    {
        if k < self.slots.len() {
            self.slots[k]
        } else {
            None
        }
    }

    /// Whether slot `k` has a component.
    pub fn contains(&self, k: usize) -> (r: bool)
        ensures
            r == self@.contains_key(k as int),
    {
        k < self.slots.len() && self.slots[k].is_some()
    }

    /// The number of slots that the store reaches: the slots from this
    /// number on hold nothing.
    pub closed spec fn reach(&self) -> nat {
        self.slots.len() as nat
    }

    /// The number of slots that the store reaches.
    pub fn span(&self) -> (n: usize)
        ensures
            n == self.reach(),
            forall|k: int| self@.contains_key(k) ==> 0 <= k < n,
    {
        self.slots.len()
    }

    /// Gives slot `k` the component `value`, in place of any it had.
    pub fn insert(&mut self, k: usize, value: T)
        ensures
            final(self)@ == old(self)@.insert(k as int, value),
    {
        while self.slots.len() <= k
            invariant
                self@ == old(self)@,
            decreases k + 1 - self.slots.len(),
        {
            let ghost before = self@;
            self.slots.push(None);
            assert(self@ =~= before);
        }
        self.slots.set(k, Some(value));
        assert(self@ =~= old(self)@.insert(k as int, value));
    }

    /// Takes the component of slot `k` away, if it has one.
    pub fn remove(&mut self, k: usize)
        ensures
            final(self)@ == old(self)@.remove(k as int),
    {
        if k < self.slots.len() {
            self.slots.set(k, None);
        }
        assert(self@ =~= old(self)@.remove(k as int));
    }
}

} // verus!
