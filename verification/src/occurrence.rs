//! A single word instance of the memory manifold.
//!
//! The geometric state of an occurrence (its position on S³ and its phase)
//! is floating point and is kept by the caller beside this record; what the
//! library reads is the word, the activation count and the identifiers.
use vstd::prelude::*;

use crate::ids::new_id;

verus! {

/// A single word instance with its activation count.
pub struct Occurrence {
    pub word: String,
    pub activation_count: u32,
    pub id: u128,
    pub neighborhood_id: u128,
}

/// Abstract value of an occurrence.
pub struct OccurrenceView {
    pub word: Seq<char>,
    pub activation_count: u32,
    pub id: u128,
    pub neighborhood_id: u128,
}

impl View for Occurrence {
    type V = OccurrenceView;

    open spec fn view(&self) -> OccurrenceView {
        OccurrenceView {
            word: self.word@,
            activation_count: self.activation_count,
            id: self.id,
            neighborhood_id: self.neighborhood_id,
        }
    }
}

impl Clone for Occurrence {
    fn clone(&self) -> (r: Self)
        ensures
            r@ == self@,
    {
        Occurrence {
            word: self.word.clone(),
            activation_count: self.activation_count,
            id: self.id,
            neighborhood_id: self.neighborhood_id,
        }
    }
}

/// Whether `count` is more than half of `container` (the ratio
/// `count / container` above THRESHOLD = 1/2).
pub open spec fn above_half(count: int, container: int) -> bool {
    2 * count > container
}

impl OccurrenceView {
    /// The same occurrence with its activation count set to `c`.
    pub open spec fn with_count(self, c: u32) -> OccurrenceView {
        OccurrenceView { activation_count: c, ..self }
    }
}

impl Occurrence {
    /// A fresh occurrence of `word` in the neighborhood `neighborhood_id`,
    /// never activated.
    pub fn new(word: String, neighborhood_id: u128) -> (o: Self)
        ensures
            o@.word == word@,
            o@.activation_count == 0,
            o@.neighborhood_id == neighborhood_id,
    {
        Occurrence { word, activation_count: 0, id: new_id(), neighborhood_id }
    }

    /// Increment the activation count.
    pub fn activate(&mut self)
        requires
            old(self)@.activation_count < u32::MAX,
        ensures
            final(self)@ == old(self)@.with_count((old(self)@.activation_count + 1) as u32),
    {
        self.activation_count = self.activation_count + 1;
    }

    /// Anchored: the occurrence holds more than half of its container's
    /// activation, or the container was never activated.
    pub fn is_anchored(&self, container_activation: u32) -> (b: bool)
        ensures
            b == (container_activation == 0 || above_half(
                self@.activation_count as int,
                container_activation as int,
            )),
    {
        if container_activation == 0 {
            return true;
        }
        2 * (self.activation_count as u64) > container_activation as u64
    }
}

} // verus!
