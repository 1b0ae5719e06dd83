//! Fixed-capacity, allocation-free containers for latency-sensitive and
//! memory-constrained environments: every container owns a bounded amount of
//! inline storage, never grows past its configured capacity, and reports
//! exhaustion through explicit error values instead of reallocating.
//!
//! The core component is the arena-backed ordered index in [`btree`]; the
//! remaining containers are independent bounded-buffer and probe-sequence
//! structures with their own narrow contracts.

pub mod btree;
pub mod fixedvec;
pub mod hashmap;
pub mod queue;
pub mod ring;
pub mod stack;

pub use btree::BTree;
pub use fixedvec::FixedVec;
pub use hashmap::HashMap;
pub use ring::RingBuffer;
pub use stack::Stack;
