//! A solver for the flood-fill board puzzle: starting from the top-left cell,
//! recolour the region touching it until the whole grid holds one colour, in
//! as few moves as possible.

pub mod board;
pub mod covered;
pub mod flood;
pub mod laws;
pub mod marking;
pub mod moves;
pub mod search;
