//! Which keys or buttons are down, which went down since the last frame, and
//! which came up.

use std::collections::HashSet;
use std::hash::Hash;
use vstd::prelude::*;
use vstd::std_specs::hash::obeys_key_model;

verus! {

broadcast use vstd::std_specs::hash::group_hash_axioms;

/// The state of a set of keys or buttons over one frame.
#[derive(Debug)]
pub struct Input<T> {
    pub held: HashSet<T>,
    pub pressed: HashSet<T>,
    pub released: HashSet<T>,
}

impl<T> Input<T> {
    /// Nothing is down, and nothing has changed.
    pub fn new() -> (input: Input<T>)
        ensures
            input.held@ == Set::<T>::empty(),
            input.pressed@ == Set::<T>::empty(),
            input.released@ == Set::<T>::empty(),
    {
        Input { held: HashSet::new(), pressed: HashSet::new(), released: HashSet::new() }
    }
}

impl<T: Copy + Eq + Hash> Input<T> {
    /// Starts a new frame: what is down stays down, and nothing has gone
    /// down or come up yet.
    pub fn update(&mut self)
        ensures
            final(self).held@ == old(self).held@,
            final(self).pressed@ == Set::<T>::empty(),
            final(self).released@ == Set::<T>::empty(),
    {
        self.pressed.clear();
        self.released.clear();
    }

    /// The key went down.
    pub fn press(&mut self, key: T)
        ensures
            final(self).released@ == old(self).released@,
            obeys_key_model::<T>() ==> final(self).pressed@ == old(self).pressed@.insert(key),
            obeys_key_model::<T>() ==> final(self).held@ == old(self).held@.insert(key),
    {
        self.pressed.insert(key);
        self.held.insert(key);
    }

    /// The key came up.
    pub fn release(&mut self, key: T)
        ensures
            final(self).pressed@ == old(self).pressed@,
            obeys_key_model::<T>() ==> final(self).released@ == old(self).released@.insert(key),
            obeys_key_model::<T>() ==> final(self).held@ == old(self).held@.remove(key),
    {
        self.released.insert(key);
        self.held.remove(&key);
    }

    /// Whether the key is down.
    pub fn is_held(&self, key: T) -> (held: bool)
        ensures
            obeys_key_model::<T>() ==> held == self.held@.contains(key),
    {
        self.held.contains(&key)
    }

    /// Whether the key went down in this frame.
    pub fn is_pressed(&self, key: T) -> (pressed: bool)
        ensures
            obeys_key_model::<T>() ==> pressed == self.pressed@.contains(key),
    {
        self.pressed.contains(&key)
    }

    /// Whether the key came up in this frame.
    pub fn is_released(&self, key: T) -> (released: bool)
        ensures
            obeys_key_model::<T>() ==> released == self.released@.contains(key),
    {
        self.released.contains(&key)
    }
}

impl<T> Default for Input<T> {
    fn default() -> (input: Input<T>)
        ensures
            input.held@ == Set::<T>::empty(),
            input.pressed@ == Set::<T>::empty(),
            input.released@ == Set::<T>::empty(),
    {
        Input::new()
    }
}

} // verus!
