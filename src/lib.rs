//! Simulation core of a falling-block arcade game: a scrolling grid of
//! labelled cells, detection of closed rectangular outlines, and the
//! per-frame game state machine.
pub mod field;
pub mod model;
pub mod spiral;
