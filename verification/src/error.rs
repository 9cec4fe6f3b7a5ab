//! Errors of chunk-content construction.

use vstd::prelude::*;
use vstd::string::StringExecFns;

use crate::graph::Module;
use crate::graph::ModuleGraph;

verus! {

/// Why chunk-content construction failed.
#[derive(Debug, Clone, PartialEq, Eq)]
pub enum ChunkingError {
    /// A module was requested to be placed into the same chunk as the module
    /// that references it, but no chunk item could be made for it. Carries
    /// the module and its name.
    CannotBePlaced { module: Module, ident: String },
}

impl ChunkingError {
    /// The message of the error.
    pub open spec fn spec_to_string(&self) -> Seq<char> {
        match self {
            ChunkingError::CannotBePlaced { ident, .. } => "Module "@ + ident@
                + " was requested to be placed into the same chunk, but this wasn't possible"@,
        }
    }

    /// The message of the error: it says which module could not be placed.
    pub fn to_string(&self) -> (r: String)
        ensures
            r@ == self.spec_to_string(),
    {
        match self {
            ChunkingError::CannotBePlaced { ident, .. } => {
                let message = String::from_str("Module ");
                let message = message.concat(ident.as_str());
                message.concat(
                    " was requested to be placed into the same chunk, but this wasn't possible",
                )
            },
        }
    }

    /// The error says that `module` of `graph` could not be placed, and
    /// carries that module's name.
    pub open spec fn names(&self, graph: &ModuleGraph, module: Module) -> bool {
        match self {
            ChunkingError::CannotBePlaced { module: m, ident } => *m == module && ident@
                == graph.spec_ident(module),
        }
    }
}

} // verus!
