//! What the operations of the library are for, stated of what goes in and what
//! comes out.
//!
//! The contracts of the other modules say step by step what their functions do.
//! The laws here say what that comes to: they are put in plain arithmetic, in
//! samples by their index, or as a relation between two calls.
pub mod beats;
pub mod chaining;
pub mod effects;
pub mod equalising;
pub mod hearing;
pub mod keys;
pub mod mixing;
pub mod naming;
pub mod pitching;
pub mod rooms;
pub mod sounding;
pub mod stocking;
pub mod stretching;
pub mod tempo;
