//! Conway's Game of Life on a toroidal grid whose cells live in a packed
//! bit set.
//!
//! `universe` holds the executable universe, `board` its mathematical model,
//! `bits` the packed cell store, and `laws` what is proved of the model.
pub mod bits;
pub mod board;
pub mod laws;
pub mod universe;
