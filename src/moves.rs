//! The move list: the colours chosen so far, at most `MAX_MOVES` of them.
use vstd::prelude::*;

use crate::board::Colour;

verus! {

/// The most moves a solution may take.
pub const MAX_MOVES: usize = 23;

/// A list of colours of bounded length.
#[derive(Clone, Debug)]
pub struct TinyVec {
    elements: Vec<Colour>,
}

impl View for TinyVec {
    type V = Seq<Colour>;

    closed spec fn view(&self) -> Seq<Colour> {
        self.elements@
    }
}

impl TinyVec {
    pub open spec fn wf(&self) -> bool {
        self@.len() <= MAX_MOVES
    }

    /// An empty list.
    pub fn new() -> (r: TinyVec)
        ensures
            r@ == Seq::<Colour>::empty(),
            r.wf(),
    {
        TinyVec { elements: Vec::new() }
    }

    pub fn len(&self) -> (r: usize)
        ensures
            r == self@.len(),
    {
        self.elements.len()
    }

    /// Appends `element`; the list must have room for it.
    pub fn push(&mut self, element: Colour)
        requires
            old(self)@.len() < MAX_MOVES,
        ensures
            final(self)@ == old(self)@.push(element),
            final(self).wf(),
    {
        self.elements.push(element);
    }

    /// The colour at `i`.
    pub fn get(&self, i: usize) -> (r: Colour)
        requires
            i < self@.len(),
        ensures
            r == self@[i as int],
    {
        self.elements[i]
    }

    /// An equal list that can grow on its own.
    pub fn copy(&self) -> (r: TinyVec)
        ensures
            r@ == self@,
    {
        TinyVec { elements: self.elements.clone() }
    }

    /// The colours, first to last.
    pub fn to_vec(&self) -> (r: Vec<Colour>)
        ensures
            r@ == self@,
    {
        self.elements.clone()
    }
}

} // verus!
