//! The chunk-content visitor: which edges of the walk are followed, which
//! are skipped, and when the walk is given up because the chunk grows too
//! large.

use vstd::prelude::*;

use crate::classify::reference_to_graph_nodes;
use crate::classify::reference_to_graph_nodes_spec;
use crate::classify::ChunkContentContext;
use crate::classify::ChunkContentGraphNode;
use crate::classify::GraphEdge;
use crate::error::ChunkingError;
use crate::graph::ChunkingType;
use crate::graph::Module;
use crate::graph::ModuleGraph;
use crate::graph::ModuleReference;

verus! {

/// The maximum number of chunk items that can be in a chunk before we split
/// it into multiple chunks.
pub const MAX_CHUNK_ITEMS_COUNT: usize = 5000;

/// What the walk does with an edge.
#[derive(Copy, Clone, Debug, PartialEq, Eq, Structural)]
pub enum VisitControlFlow {
    /// The node is recorded and its own edges are walked.
    Continue(ChunkContentGraphNode),
    /// The node is recorded, but its edges are not walked.
    Skip(ChunkContentGraphNode),
    /// The whole walk stops.
    Abort,
}

/// The visitor: the context of the walk, the number of chunk items counted
/// so far, and the keys seen so far.
#[derive(Clone, Debug)]
pub struct ChunkContentVisit<'a> {
    pub chunk_content_context: ChunkContentContext<'a>,
    pub chunk_items_count: usize,
    pub processed_assets: Vec<(ChunkingType, Module)>,
}

/// What the visitor has counted and seen.
pub struct VisitState {
    pub chunk_items_count: nat,
    pub processed_assets: Set<(ChunkingType, Module)>,
}

impl<'a> View for ChunkContentVisit<'a> {
    type V = VisitState;

    open spec fn view(&self) -> VisitState {
        VisitState {
            chunk_items_count: self.chunk_items_count as nat,
            processed_assets: self.processed_assets@.to_set(),
        }
    }
}

/// The state of a visitor that has seen nothing yet.
pub open spec fn initial_visit_state() -> VisitState {
    VisitState { chunk_items_count: 0, processed_assets: Set::empty() }
}

/// The decision on one edge, and the state after it. An edge without a key
/// is always followed. An edge whose key was seen before is skipped. A new
/// key is recorded; if its node is a chunk item it is counted, and the walk
/// is aborted when the count reaches the maximum outside split mode.
pub open spec fn visit_spec(split: bool, state: VisitState, edge: GraphEdge) -> (
    VisitState,
    VisitControlFlow,
) {
    let (option_key, node) = edge;
    match option_key {
        None => (state, VisitControlFlow::Continue(node)),
        Some((asset, chunking_type)) => if state.processed_assets.contains(
            (chunking_type, asset),
        ) {
            (state, VisitControlFlow::Skip(node))
        } else {
            let processed_assets = state.processed_assets.insert((chunking_type, asset));
            if node is ChunkItem {
                let chunk_items_count = state.chunk_items_count + 1;
                let counted = VisitState { chunk_items_count, processed_assets };
                if !split && chunk_items_count >= MAX_CHUNK_ITEMS_COUNT {
                    (counted, VisitControlFlow::Abort)
                } else {
                    (counted, VisitControlFlow::Continue(node))
                }
            } else {
                (
                    VisitState { chunk_items_count: state.chunk_items_count, processed_assets },
                    VisitControlFlow::Continue(node),
                )
            }
        },
    }
}

/// The references whose destinations are the successors of a node: those of
/// the module for a passthrough module, those of the item for a chunk item,
/// none for any other node.
pub open spec fn node_references(graph: &ModuleGraph, node: ChunkContentGraphNode) -> Seq<
    ModuleReference,
> {
    match node {
        ChunkContentGraphNode::PassthroughModule { asset } => graph.spec_references(asset),
        ChunkContentGraphNode::ChunkItem { item } => graph.spec_item_references(item),
        _ => Seq::empty(),
    }
}

/// The graph nodes of a list of references, one reference after the other,
/// or the module that could not be placed under the first reference that
/// fails.
pub open spec fn references_to_graph_nodes_spec(
    ctx: ChunkContentContext,
    references: Seq<ModuleReference>,
) -> Result<Seq<GraphEdge>, Module>
    decreases references.len(),
{
    if references.len() == 0 {
        Ok(Seq::empty())
    } else {
        match references_to_graph_nodes_spec(ctx, references.drop_last()) {
            Ok(edges) => match reference_to_graph_nodes_spec(ctx, references.last()) {
                Ok(more) => Ok(edges + more),
                Err(module) => Err(module),
            },
            Err(module) => Err(module),
        }
    }
}

/// The edges that leave a node: its references, classified.
pub open spec fn edges_spec(ctx: ChunkContentContext, node: ChunkContentGraphNode) -> Result<
    Seq<GraphEdge>,
    Module,
> {
    references_to_graph_nodes_spec(ctx, node_references(ctx.graph, node))
}

/// Once a prefix of the references has failed, the whole list fails in the
/// same way.
pub proof fn lemma_failed_stays(
    ctx: ChunkContentContext,
    references: Seq<ModuleReference>,
    n: int,
)
    requires
        0 <= n <= references.len(),
        references_to_graph_nodes_spec(ctx, references.take(n)) is Err,
    ensures
        references_to_graph_nodes_spec(ctx, references) == references_to_graph_nodes_spec(
            ctx,
            references.take(n),
        ),
    decreases references.len() - n,
{
    if n == references.len() {
        assert(references.take(n) =~= references);
    } else {
        assert(references.take(n + 1).drop_last() =~= references.take(n));
        lemma_failed_stays(ctx, references, n + 1);
    }
}

/// The references of a node, where it has any.
fn references_of<'a>(graph: &'a ModuleGraph, node: &ChunkContentGraphNode) -> (r: Option<
    &'a Vec<ModuleReference>,
>)
    ensures
        match r {
            Some(references) => references@ == node_references(graph, *node),
            None => node_references(graph, *node) == Seq::<ModuleReference>::empty(),
        },
{
    match node {
        ChunkContentGraphNode::PassthroughModule { asset } => {
            if asset.0 < graph.modules.len() {
                Some(&graph.modules[asset.0].references)
            } else {
                None
            }
        },
        ChunkContentGraphNode::ChunkItem { item } => {
            if item.0 < graph.chunk_items.len() {
                Some(&graph.chunk_items[item.0].references)
            } else {
                None
            }
        },
        _ => None,
    }
}

/// Whether a list of keys holds a key.
fn contains_key(keys: &Vec<(ChunkingType, Module)>, chunking_type: ChunkingType, asset: Module) -> (r:
    bool)
    ensures
        r == keys@.contains((chunking_type, asset)),
{
    let mut i: usize = 0;
    while i < keys.len()
        invariant
            i <= keys.len(),
            forall|j: int| 0 <= j < i ==> keys@[j] != (chunking_type, asset),
        decreases keys.len() - i,
    {
        if keys[i].0 == chunking_type && keys[i].1 == asset {
            assert(keys@[i as int] == (chunking_type, asset));
            return true;
        }
        i += 1;
    }
    false
}

impl<'a> ChunkContentVisit<'a> {
    /// The keys seen are recorded once each, and no more chunk items were
    /// counted than keys were seen.
    pub open spec fn wf(&self) -> bool {
        &&& self.processed_assets@.no_duplicates()
        &&& self.chunk_items_count <= self.processed_assets.len()
    }

    /// A visitor that has seen nothing yet.
    pub fn new(chunk_content_context: ChunkContentContext<'a>) -> (r: Self)
        ensures
            r.wf(),
            r.chunk_content_context == chunk_content_context,
            r@ == initial_visit_state(),
    {
        let r = ChunkContentVisit {
            chunk_content_context,
            chunk_items_count: 0,
            processed_assets: Vec::new(),
        };
        assert(r@.processed_assets =~= Set::empty());
        r
    }

    /// Decides whether the walk follows an edge, skips it, or stops.
    pub fn visit(&mut self, edge: GraphEdge) -> (r: VisitControlFlow)
        requires
            old(self).wf(),
        ensures
            final(self).wf(),
            final(self).chunk_content_context == old(self).chunk_content_context,
            (final(self)@, r) == visit_spec(
                old(self).chunk_content_context.split,
                old(self)@,
                edge,
            ),
    {
        let (option_key, node) = edge;
        let (asset, chunking_type) = match option_key {
            Some(key) => key,
            None => {
                return VisitControlFlow::Continue(node);
            },
        };
        if contains_key(&self.processed_assets, chunking_type, asset) {
            return VisitControlFlow::Skip(node);
        }
        self.processed_assets.push((chunking_type, asset));
        proof {
            let before = old(self).processed_assets@;
            let key = (chunking_type, asset);
            assert(before.push(key).to_set() =~= before.to_set().insert(key)) by {
                assert forall|k: (ChunkingType, Module)|
                    before.push(key).contains(k) <==> (before.contains(k) || k == key) by {
                    if before.contains(k) {
                        let j = choose|j: int| 0 <= j < before.len() && before[j] == k;
                        assert(before.push(key)[j] == k);
                    }
                    if k == key {
                        assert(before.push(key)[before.len() as int] == k);
                    }
                }
            }
        }
        if let ChunkContentGraphNode::ChunkItem { .. } = node {
            assert(self.processed_assets.len() == old(self).processed_assets.len() + 1);
            self.chunk_items_count += 1;
            // Make sure the chunk doesn't become too large.
            if !self.chunk_content_context.split && self.chunk_items_count
                >= MAX_CHUNK_ITEMS_COUNT {
                // Chunk is too large, cancel this algorithm and restart with
                // splitting from the start.
                return VisitControlFlow::Abort;
            }
        }
        VisitControlFlow::Continue(node)
    }

    /// The edges that leave a node: the references of a passthrough module
    /// or of a chunk item, each classified, in order. Fails exactly when the
    /// classification of one of the references fails; the error is that of
    /// the first such reference.
    pub fn edges(&self, node: &ChunkContentGraphNode) -> (r: Result<
        Vec<GraphEdge>,
        ChunkingError,
    >)
        ensures
            match r {
                Ok(edges) => edges_spec(self.chunk_content_context, *node) == Ok::<
                    Seq<GraphEdge>,
                    Module,
                >(edges@),
                Err(e) => edges_spec(self.chunk_content_context, *node) is Err && e.names(
                    self.chunk_content_context.graph,
                    edges_spec(self.chunk_content_context, *node)->Err_0,
                ),
            },
    {
        let ctx = self.chunk_content_context;
        let mut graph_nodes: Vec<GraphEdge> = Vec::new();
        let references = match references_of(ctx.graph, node) {
            Some(references) => references,
            None => {
                return Ok(graph_nodes);
            },
        };
        let mut i: usize = 0;
        while i < references.len()
            invariant
                i <= references.len(),
                references@ == node_references(ctx.graph, *node),
                ctx == self.chunk_content_context,
                references_to_graph_nodes_spec(ctx, references@.take(i as int)) == Ok::<
                    Seq<GraphEdge>,
                    Module,
                >(graph_nodes@),
            decreases references.len() - i,
        {
            proof {
                assert(references@.take(i + 1).drop_last() =~= references@.take(i as int));
            }
            match reference_to_graph_nodes(ctx, references[i]) {
                Ok(mut more) => {
                    graph_nodes.append(&mut more);
                },
                Err(e) => {
                    proof {
                        lemma_failed_stays(ctx, references@, i + 1);
                    }
                    return Err(e);
                },
            }
            i += 1;
        }
        proof {
            assert(references@.take(i as int) =~= references@);
        }
        Ok(graph_nodes)
    }
}

} // verus!
