//! A growable bump arena: typed objects are placed into a list of chunks whose
//! capacities grow geometrically, and every object is addressed by the stable
//! position at which it was placed.
//!
//! [`Arena`] takes single objects and contiguous runs; [`SimpleArena`] takes
//! single objects only and keeps its chunk sizes exact powers of two. Both
//! are built on one [`chunks::ChunkList`], whose behaviour is stated over the
//! mathematical model in [`model`] and whose guarantees are proved in
//! [`laws`].

pub mod arena;
pub mod chunks;
pub mod growth;
pub mod laws;
pub mod model;
pub mod simple;
pub mod slot;

pub use crate::arena::Arena;
pub use crate::simple::{LayoutError, SimpleArena};
pub use crate::slot::{Slot, Span};
