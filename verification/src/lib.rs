//! A lookup table for a balance scale: for an inventory of weights, which
//! units to lay on which pan to weigh each mass of a range, or the nearest
//! mass that can be weighed.

pub mod inventory;
pub mod parse;
pub mod combination;
pub mod enumerate;
pub mod sorting;
pub mod placement;
pub mod solution;
pub mod lookup;
pub mod solver;
pub mod laws;
