//! Chunk-content construction for a module bundler.
//!
//! Starting from an entry module, the library walks a graph of module
//! references, classifies every destination by the kind of reference that
//! led to it, and returns the ordered list of chunk items that belong in one
//! chunk, together with the sibling chunks and the references left untouched.
//!
//! The executable part:
//!
//! - [`graph`]: handles of modules, references, chunk items and chunks, and
//!   the tables of a module graph;
//! - [`module_id`]: module ids and their text form;
//! - [`classify`]: what one reference contributes;
//! - [`visit`]: which edges the walk follows, and when it gives up;
//! - [`traversal`]: the walk, and the adjacency map that it records;
//! - [`topological`]: the reverse topological order of a recorded walk;
//! - [`content`]: the entry points.
//!
//! What is proved of it beyond the contracts of its functions:
//!
//! - [`invariants`]: deduplication, availability pruning, isolation,
//!   passthrough transparency, and the retry with splitting;
//! - [`ledger`]: how the nodes recorded by a walk, the keys seen and the
//!   chunk items counted belong together;
//! - [`order`]: the reverse topological order hands out every node once,
//!   behind the nodes that it leads to;
//! - [`bound`]: a chunk holds nothing twice, and stays below the maximum
//!   size without splitting;
//! - [`placement`]: the order of the chunk items of a chunk;
//! - [`reach`]: a chunk holds exactly what is reached from its entries.

pub mod bound;
pub mod classify;
pub mod content;
pub mod error;
pub mod graph;
pub mod invariants;
pub mod ledger;
pub mod module_id;
pub mod order;
pub mod placement;
pub mod reach;
pub mod topological;
pub mod traversal;
pub mod visit;
