//! Memory-layout toolkit: a `Layout` algebra for C-style aggregates, a
//! pointer model that carries optional metadata, an arena allocator with
//! grow/shrink, and the engine that prepends sized fields to a boxed last
//! field (and splits them off again). A singly-linked list built on that
//! engine, and a check of an aggregate's layout hints, come with it.
pub mod hint;
pub mod layout;
pub mod ptr;
pub mod heap;
pub mod repr_c;
pub mod check;
pub mod word;
pub mod list;
