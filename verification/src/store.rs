//! Kernel objects, by the physical address they live at.

use std::collections::HashMap;
use vstd::prelude::*;

verus! {

/// What an object is before anything has been put in it.
pub trait Blank: View + Sized {
    /// The blank object, seen from outside.
    spec fn blank_view() -> Self::V;

    /// The blank object.
    fn blank() -> (r: Self)
        ensures
            r@ == Self::blank_view(),
    ;
}

/// An object kept to stand for every one that was never written.
struct Spare<T: Blank> {
    item: T,
}

impl<T: Blank> Spare<T> {
    #[verifier::type_invariant]
    spec fn wf(self) -> bool {
        self.item@ == T::blank_view()
    }
}

/// Objects of one kind. One that was never written is blank.
pub struct Store<T: Blank> {
    items: HashMap<u64, T>,
    spare: Spare<T>,
}

impl<T: Blank> View for Store<T> {
    type V = Map<u64, T::V>;

    closed spec fn view(&self) -> Map<u64, T::V> {
        Map::total(
            |a: u64|
                if self.items@.contains_key(a) {
                    self.items@[a]@
                } else {
                    T::blank_view()
                },
        )
    }
}

impl<T: Blank> Store<T> {
    /// Every address holds an object.
    pub proof fn is_total(&self)
        ensures
            forall|a: u64| #[trigger] self@.dom().contains(a),
    {
    }

    /// Blank objects everywhere.
    pub fn new() -> (r: Self)
        ensures
            r@ == Map::total(|a: u64| T::blank_view()),
    {
        broadcast use vstd::std_specs::hash::group_hash_axioms;

        let r = Store { items: HashMap::new(), spare: Spare { item: T::blank() } };
        assert(r@ =~= Map::total(|a: u64| T::blank_view()));
        r
    }

    /// The object at an address.
    pub fn get(&self, a: u64) -> (r: &T)
        ensures
            r@ == self@[a],
    {
        broadcast use vstd::std_specs::hash::group_hash_axioms;

        proof {
            use_type_invariant(&self.spare);
        }
        match self.items.get(&a) {
            Some(t) => t,
            None => &self.spare.item,
        }
    }

    /// Take the object out of an address, leaving a blank one.
    pub fn take(&mut self, a: u64) -> (r: T)
        ensures
            r@ == old(self)@[a],
            final(self)@ == old(self)@.insert(a, T::blank_view()),
    {
        broadcast use vstd::std_specs::hash::group_hash_axioms;

        let held: Option<T> = self.items.remove(&a);
        assert(self@ =~= old(self)@.insert(a, T::blank_view()));
        match held {
            Some(t) => t,
            None => T::blank(),
        }
    }

    /// Put an object at an address.
    pub fn put(&mut self, a: u64, item: T)
        ensures
            final(self)@ == old(self)@.insert(a, item@),
    {
        broadcast use vstd::std_specs::hash::group_hash_axioms;

        self.items.insert(a, item);
        assert(self@ =~= old(self)@.insert(a, item@));
    }
}

} // verus!
