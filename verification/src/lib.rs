//! An in-memory JSON document model: a recursive value tree built from a
//! stream of structural parse events, with typed access and mutation, an
//! ordered object representation, and promotion of borrowed text to owned
//! storage.

pub mod builder;
pub mod cmp;
pub mod events;
pub mod from;
pub mod promote;
pub mod value;
