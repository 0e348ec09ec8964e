//! An embeddable moving garbage collector over a single contiguous arena:
//! a size/alignment packing calculus, per-object metadata with in-place
//! forwarding, a bump allocator, and a Cheney-style semi-space copying
//! collector driven by a caller-managed root set. A small tokenizer for a
//! parenthesized expression language lives alongside it.

pub mod gc;
pub mod layout;
pub mod tokenizer;
