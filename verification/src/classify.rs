//! The reference classifier: what one reference contributes to the content
//! of a chunk.

use vstd::prelude::*;

use crate::error::ChunkingError;
use crate::graph::AvailabilityInfo;
use crate::graph::Chunk;
use crate::graph::ChunkItem;
use crate::graph::ChunkingContext;
use crate::graph::ChunkingType;
use crate::graph::Module;
use crate::graph::ModuleGraph;
use crate::graph::ModuleReference;

verus! {

/// A node of the graph that is walked to find the content of a chunk.
#[derive(Copy, Clone, Debug, Hash, PartialEq, Eq, Structural)]
pub enum ChunkContentGraphNode {
    /// A module not placed in the current chunk, but whose references are
    /// followed to find more graph nodes.
    PassthroughModule { asset: Module },
    /// A chunk item that is placed into the current chunk. Where the walk is
    /// traced, the node goes by the asset ident of its item.
    ChunkItem { item: ChunkItem },
    /// A module that is already available and doesn't need to be included.
    AvailableAsset(Module),
    /// A chunk that is loaded in parallel to the current chunk.
    Chunk(Chunk),
    /// A reference that is kept as it is.
    ExternalModuleReference(ModuleReference),
}

/// The key by which destinations are told apart: the module and the
/// chunking type of the reference that led to it.
pub type DedupeKey = (Module, ChunkingType);

/// A graph node together with its key; a node without a key is never
/// deduplicated.
pub type GraphEdge = (Option<DedupeKey>, ChunkContentGraphNode);

/// What stays the same during one construction of a chunk's content.
#[derive(Copy, Clone, Debug)]
pub struct ChunkContentContext<'a> {
    pub graph: &'a ModuleGraph,
    pub chunking_context: &'a ChunkingContext,
    pub entry: Module,
    pub availability_info: AvailabilityInfo,
    pub split: bool,
}

/// What the classifier makes of one destination module of a reference.
#[derive(Copy, Clone, Debug)]
pub enum Classified {
    /// The module contributes this graph node.
    Node(Option<DedupeKey>, ChunkContentGraphNode),
    /// The whole reference is kept as an external reference.
    External,
    /// The module had to be placed and could not be: a fatal error.
    CannotBePlaced,
}

/// What the classifier makes of a whole list of destination modules.
pub enum ClassifiedList {
    /// Every module contributed a graph node.
    Nodes(Seq<GraphEdge>),
    /// Some module turned the reference into an external reference.
    External,
    /// This module had to be placed and could not be.
    CannotBePlaced(Module),
}

/// The sibling chunk that is made for `module` when it is not placed.
pub open spec fn parallel_chunk_node(
    chunk_item: ChunkItem,
    availability_info: AvailabilityInfo,
) -> ChunkContentGraphNode {
    ChunkContentGraphNode::Chunk(Chunk { item: chunk_item, availability_info })
}

/// Whether the heuristic places a `PlacedOrParallel` destination into the
/// current chunk: not in split mode, the chunking context lets it share a
/// chunk with the entry, and the item factory produces an item for it.
pub open spec fn heuristic_places(ctx: ChunkContentContext, module: Module) -> bool {
    &&& !ctx.split
    &&& ctx.chunking_context.spec_can_be_in_same_chunk(ctx.entry, module)
    &&& ctx.graph.spec_from_asset(module) is Some
}

/// What a chunkable module contributes, by the chunking type of the
/// reference that led to it.
pub open spec fn dispatch_spec(
    ctx: ChunkContentContext,
    chunking_type: ChunkingType,
    module: Module,
    chunk_item: ChunkItem,
) -> Classified {
    let key = Some((module, chunking_type));
    match chunking_type {
        ChunkingType::Placed => match ctx.graph.spec_from_asset(module) {
            Some(item) => Classified::Node(key, ChunkContentGraphNode::ChunkItem { item }),
            None => Classified::CannotBePlaced,
        },
        ChunkingType::Parallel => Classified::Node(
            key,
            parallel_chunk_node(chunk_item, ctx.availability_info),
        ),
        ChunkingType::IsolatedParallel => Classified::Node(
            key,
            parallel_chunk_node(
                chunk_item,
                AvailabilityInfo::Root { current_availability_root: module },
            ),
        ),
        ChunkingType::PlacedOrParallel => if heuristic_places(ctx, module) {
            Classified::Node(
                key,
                ChunkContentGraphNode::ChunkItem { item: ctx.graph.spec_from_asset(module)->0 },
            )
        } else {
            Classified::Node(key, parallel_chunk_node(chunk_item, ctx.availability_info))
        },
        ChunkingType::Async => match ctx.graph.spec_from_async_asset(module) {
            Some(item) => Classified::Node(key, ChunkContentGraphNode::ChunkItem { item }),
            None => Classified::External,
        },
    }
}

/// What one destination module of a reference contributes. The rules apply
/// in this order: an available module is pruned; a passthrough module is
/// walked through; a module that is not chunkable makes the reference
/// external; any other module is dispatched on the chunking type.
pub open spec fn classify_module_spec(
    ctx: ChunkContentContext,
    chunking_type: ChunkingType,
    module: Module,
) -> Classified {
    if ctx.graph.spec_is_available(ctx.availability_info, module) {
        Classified::Node(
            Some((module, chunking_type)),
            ChunkContentGraphNode::AvailableAsset(module),
        )
    } else if ctx.graph.spec_is_passthrough(module) {
        Classified::Node(None, ChunkContentGraphNode::PassthroughModule { asset: module })
    } else {
        match ctx.graph.spec_as_chunk_item(module) {
            None => Classified::External,
            Some(chunk_item) => dispatch_spec(ctx, chunking_type, module, chunk_item),
        }
    }
}

/// What a list of destination modules contributes: the nodes of all of them
/// in order, unless one of them stops the classification. The first module
/// that stops it decides how.
pub open spec fn classify_modules_spec(
    ctx: ChunkContentContext,
    chunking_type: ChunkingType,
    modules: Seq<Module>,
) -> ClassifiedList
    decreases modules.len(),
{
    if modules.len() == 0 {
        ClassifiedList::Nodes(Seq::empty())
    } else {
        match classify_modules_spec(ctx, chunking_type, modules.drop_last()) {
            ClassifiedList::Nodes(nodes) => match classify_module_spec(
                ctx,
                chunking_type,
                modules.last(),
            ) {
                Classified::Node(key, node) => ClassifiedList::Nodes(nodes.push((key, node))),
                Classified::External => ClassifiedList::External,
                Classified::CannotBePlaced => ClassifiedList::CannotBePlaced(modules.last()),
            },
            stopped => stopped,
        }
    }
}

/// The single edge of a reference that is kept as it is.
pub open spec fn external_edges(reference: ModuleReference) -> Seq<GraphEdge> {
    seq![(None, ChunkContentGraphNode::ExternalModuleReference(reference))]
}

/// The graph nodes of a reference, or the module that could not be placed.
/// A reference that is not chunkable, or reports no chunking type, is kept
/// as an external reference.
pub open spec fn reference_to_graph_nodes_spec(
    ctx: ChunkContentContext,
    reference: ModuleReference,
) -> Result<Seq<GraphEdge>, Module> {
    match ctx.graph.spec_chunking_type(reference) {
        None => Ok(external_edges(reference)),
        Some(chunking_type) => match classify_modules_spec(
            ctx,
            chunking_type,
            ctx.graph.spec_primary_modules(reference),
        ) {
            ClassifiedList::Nodes(nodes) => Ok(nodes),
            ClassifiedList::External => Ok(external_edges(reference)),
            ClassifiedList::CannotBePlaced(module) => Err(module),
        },
    }
}

/// Classifies one destination module of a reference with the given chunking
/// type.
pub fn classify_module(
    ctx: ChunkContentContext,
    chunking_type: ChunkingType,
    module: Module,
) -> (r: Classified)
    ensures
        r == classify_module_spec(ctx, chunking_type, module),
{
    if ctx.graph.is_available(ctx.availability_info, module) {
        return Classified::Node(
            Some((module, chunking_type)),
            ChunkContentGraphNode::AvailableAsset(module),
        );
    }
    if ctx.graph.is_passthrough(module) {
        return Classified::Node(None, ChunkContentGraphNode::PassthroughModule { asset: module });
    }
    let chunk_item = match ctx.graph.as_chunk_item(module) {
        Some(chunk_item) => chunk_item,
        None => {
            return Classified::External;
        },
    };
    let key = Some((module, chunking_type));
    match chunking_type {
        ChunkingType::Placed => {
            match ctx.graph.from_asset(module) {
                Some(item) => Classified::Node(key, ChunkContentGraphNode::ChunkItem { item }),
                None => Classified::CannotBePlaced,
            }
        },
        ChunkingType::Parallel => {
            let chunk = Chunk { item: chunk_item, availability_info: ctx.availability_info };
            Classified::Node(key, ChunkContentGraphNode::Chunk(chunk))
        },
        ChunkingType::IsolatedParallel => {
            let chunk = Chunk {
                item: chunk_item,
                availability_info: AvailabilityInfo::Root { current_availability_root: module },
            };
            Classified::Node(key, ChunkContentGraphNode::Chunk(chunk))
        },
        ChunkingType::PlacedOrParallel => {
            // heuristic for being in the same chunk
            if !ctx.split && ctx.chunking_context.can_be_in_same_chunk(ctx.entry, module) {
                if let Some(item) = ctx.graph.from_asset(module) {
                    return Classified::Node(key, ChunkContentGraphNode::ChunkItem { item });
                }
            }
            let chunk = Chunk { item: chunk_item, availability_info: ctx.availability_info };
            Classified::Node(key, ChunkContentGraphNode::Chunk(chunk))
        },
        ChunkingType::Async => {
            match ctx.graph.from_async_asset(module, ctx.availability_info) {
                Some(item) => Classified::Node(key, ChunkContentGraphNode::ChunkItem { item }),
                None => Classified::External,
            }
        },
    }
}

/// The single edge of a reference that is kept as it is.
fn external_reference(reference: ModuleReference) -> (r: Vec<GraphEdge>)
    ensures
        r@ == external_edges(reference),
{
    let mut edges: Vec<GraphEdge> = Vec::new();
    edges.push((None, ChunkContentGraphNode::ExternalModuleReference(reference)));
    assert(edges@ =~= external_edges(reference));
    edges
}

/// Classifies a reference: the graph nodes that it contributes, each with
/// its key. Fails exactly when a module has to be placed and the item
/// factory produces no item for it; the error names the first such module.
pub fn reference_to_graph_nodes(ctx: ChunkContentContext, reference: ModuleReference) -> (r:
    Result<Vec<GraphEdge>, ChunkingError>)
    ensures
        match r {
            Ok(edges) => reference_to_graph_nodes_spec(ctx, reference) == Ok::<
                Seq<GraphEdge>,
                Module,
            >(edges@),
            Err(e) => reference_to_graph_nodes_spec(ctx, reference) is Err && e.names(
                ctx.graph,
                reference_to_graph_nodes_spec(ctx, reference)->Err_0,
            ),
        },
{
    let chunking_type = match ctx.graph.chunking_type(reference) {
        Some(chunking_type) => chunking_type,
        None => {
            return Ok(external_reference(reference));
        },
    };
    let modules = &ctx.graph.references[reference.0].primary_modules;
    let mut graph_nodes: Vec<GraphEdge> = Vec::new();
    let mut i: usize = 0;
    while i < modules.len()
        invariant
            i <= modules.len(),
            modules@ == ctx.graph.spec_primary_modules(reference),
            ctx.graph.spec_chunking_type(reference) == Some(chunking_type),
            classify_modules_spec(ctx, chunking_type, modules@.take(i as int))
                == ClassifiedList::Nodes(graph_nodes@),
        decreases modules.len() - i,
    {
        let module = modules[i];
        proof {
            assert(modules@.take(i + 1).drop_last() =~= modules@.take(i as int));
            assert(modules@.take(i + 1).last() == module);
        }
        match classify_module(ctx, chunking_type, module) {
            Classified::Node(key, node) => {
                graph_nodes.push((key, node));
            },
            Classified::External => {
                proof {
                    lemma_stopped_stays(ctx, chunking_type, modules@, i + 1);
                }
                return Ok(external_reference(reference));
            },
            Classified::CannotBePlaced => {
                proof {
                    lemma_stopped_stays(ctx, chunking_type, modules@, i + 1);
                }
                return Err(
                    ChunkingError::CannotBePlaced { module, ident: ctx.graph.ident(module) },
                );
            },
        }
        i += 1;
    }
    proof {
        assert(modules@.take(i as int) =~= modules@);
    }
    Ok(graph_nodes)
}

/// Once a prefix of the modules has stopped the classification, the whole
/// list stops in the same way.
pub proof fn lemma_stopped_stays(
    ctx: ChunkContentContext,
    chunking_type: ChunkingType,
    modules: Seq<Module>,
    n: int,
)
    requires
        0 <= n <= modules.len(),
        !(classify_modules_spec(ctx, chunking_type, modules.take(n)) is Nodes),
    ensures
        classify_modules_spec(ctx, chunking_type, modules) == classify_modules_spec(
            ctx,
            chunking_type,
            modules.take(n),
        ),
    decreases modules.len() - n,
{
    if n == modules.len() {
        assert(modules.take(n) =~= modules);
    } else {
        assert(modules.take(n + 1).drop_last() =~= modules.take(n));
        lemma_stopped_stays(ctx, chunking_type, modules, n + 1);
    }
}

} // verus!
