//! The content of a chunk: the chunk items that are placed in it, the
//! chunks that are loaded in parallel to it, and the references that are
//! kept as they are.

use vstd::prelude::*;

use crate::bound::lemma_content_holds_nothing_twice;
use crate::bound::lemma_content_is_bounded;
use crate::classify::ChunkContentContext;
use crate::classify::ChunkContentGraphNode;
use crate::classify::GraphEdge;
use crate::error::ChunkingError;
use crate::graph::AvailabilityInfo;
use crate::graph::Chunk;
use crate::graph::ChunkItem;
use crate::graph::ChunkingContext;
use crate::graph::ChunkingType;
use crate::graph::Module;
use crate::graph::ModuleGraph;
use crate::graph::ModuleReference;
use crate::reach::holds_what_is_reached;
use crate::reach::lemma_content_is_what_is_reached;
use crate::topological::reverse_topological_spec;
use crate::topological::RecordedGraph;
use crate::traversal::lemma_visit_edges_measure;
use crate::traversal::expanded;
use crate::traversal::initial_walk;
use crate::traversal::run_spec;
use crate::traversal::traverse_spec;
use crate::traversal::visit_edges_spec;
use crate::traversal::walk_measure;
use crate::traversal::AdjacencyMap;
use crate::traversal::GraphTraversalResult;
use crate::traversal::VisitedEdges;
use crate::traversal::Walk;
use crate::traversal::WalkOutcome;
use crate::visit::edges_spec;
use crate::visit::initial_visit_state;
use crate::visit::visit_spec;
use crate::visit::ChunkContentVisit;
use crate::visit::VisitControlFlow;
use crate::visit::MAX_CHUNK_ITEMS_COUNT;

verus! {

/// The content of one chunk.
#[derive(Clone, Debug)]
pub struct ChunkContentResult<I> {
    /// The chunk items placed in the chunk, each after the items that it
    /// leads to.
    pub chunk_items: Vec<I>,
    /// The chunks that are loaded in parallel to this chunk.
    pub chunks: Vec<Chunk>,
    /// The references that are kept as they are.
    pub external_module_references: Vec<ModuleReference>,
    /// The availability that the content was computed with.
    pub availability_info: AvailabilityInfo,
}

/// What a `ChunkContentResult` holds.
pub struct ChunkContent {
    pub chunk_items: Seq<ChunkItem>,
    pub chunks: Seq<Chunk>,
    pub external_module_references: Seq<ModuleReference>,
    pub availability_info: AvailabilityInfo,
}

impl View for ChunkContentResult<ChunkItem> {
    type V = ChunkContent;

    open spec fn view(&self) -> ChunkContent {
        ChunkContent {
            chunk_items: self.chunk_items@,
            chunks: self.chunks@,
            external_module_references: self.external_module_references@,
            availability_info: self.availability_info,
        }
    }
}

/// The items of the chunk-item nodes among `nodes`, in order.
pub open spec fn collect_chunk_items(nodes: Seq<ChunkContentGraphNode>) -> Seq<ChunkItem>
    decreases nodes.len(),
{
    if nodes.len() == 0 {
        Seq::empty()
    } else {
        let before = collect_chunk_items(nodes.drop_last());
        match nodes.last() {
            ChunkContentGraphNode::ChunkItem { item } => before.push(item),
            _ => before,
        }
    }
}

/// The chunks of the chunk nodes among `nodes`, in order.
pub open spec fn collect_chunks(nodes: Seq<ChunkContentGraphNode>) -> Seq<Chunk>
    decreases nodes.len(),
{
    if nodes.len() == 0 {
        Seq::empty()
    } else {
        let before = collect_chunks(nodes.drop_last());
        match nodes.last() {
            ChunkContentGraphNode::Chunk(chunk) => before.push(chunk),
            _ => before,
        }
    }
}

/// The references of the external-reference nodes among `nodes`, in order.
pub open spec fn collect_external_module_references(nodes: Seq<ChunkContentGraphNode>) -> Seq<
    ModuleReference,
>
    decreases nodes.len(),
{
    if nodes.len() == 0 {
        Seq::empty()
    } else {
        let before = collect_external_module_references(nodes.drop_last());
        match nodes.last() {
            ChunkContentGraphNode::ExternalModuleReference(reference) => before.push(reference),
            _ => before,
        }
    }
}

/// The content that a list of graph nodes stands for: chunk items, chunks
/// and external references each keep their order; passthrough modules and
/// available modules are left out.
pub open spec fn collect_spec(
    nodes: Seq<ChunkContentGraphNode>,
    availability_info: AvailabilityInfo,
) -> ChunkContent {
    ChunkContent {
        chunk_items: collect_chunk_items(nodes),
        chunks: collect_chunks(nodes),
        external_module_references: collect_external_module_references(nodes),
        availability_info,
    }
}

/// The entries of a chunk: the entry, then the additional entries.
pub open spec fn all_entries(entry: Module, additional_entries: Option<Vec<Module>>) -> Seq<
    Module,
> {
    match additional_entries {
        Some(more) => seq![entry] + more@,
        None => seq![entry],
    }
}

/// The edge that the walk starts with for an entry: the item of the entry,
/// placed.
pub open spec fn root_edge(graph: &ModuleGraph, entry: Module) -> GraphEdge {
    (
        Some((entry, ChunkingType::Placed)),
        ChunkContentGraphNode::ChunkItem { item: graph.spec_from_asset(entry)->0 },
    )
}

/// The edges that the walk starts with, one for each entry.
pub open spec fn root_edges(graph: &ModuleGraph, entries: Seq<Module>) -> Seq<GraphEdge> {
    entries.map_values(|entry: Module| root_edge(graph, entry))
}

/// The item factory produces an item for every entry.
pub open spec fn entries_have_items(graph: &ModuleGraph, entries: Seq<Module>) -> bool {
    forall|i: int| 0 <= i < entries.len() ==> graph.spec_from_asset(#[trigger] entries[i]) is Some
}

/// The content of the chunk of `entry`: the graph is walked from the
/// entries, and what the walk recorded is collected in reverse topological
/// order. `Ok(None)` says that the walk was given up because the chunk
/// grew too large; `Err` names the module that had to be placed and could
/// not be.
pub open spec fn chunk_content_spec(
    ctx: ChunkContentContext,
    entries: Seq<Module>,
) -> Result<Option<ChunkContent>, Module> {
    match traverse_spec(ctx, initial_visit_state(), root_edges(ctx.graph, entries)) {
        WalkOutcome::Completed(walk) => Ok(
            Some(
                collect_spec(
                    reverse_topological_spec(
                        RecordedGraph {
                            roots: walk.roots,
                            nodes: walk.nodes,
                            successors: walk.successors,
                        },
                    ),
                    ctx.availability_info,
                ),
            ),
        ),
        WalkOutcome::Aborted => Ok(None),
        WalkOutcome::Failed(module) => Err(module),
    }
}

/// The content holds no chunk item, no chunk and no external reference
/// twice.
pub open spec fn holds_nothing_twice(content: ChunkContent) -> bool {
    &&& content.chunk_items.no_duplicates()
    &&& content.chunks.no_duplicates()
    &&& content.external_module_references.no_duplicates()
}

/// Whether an answer says what the specification says.
pub open spec fn chunk_content_result_is(
    r: Result<Option<ChunkContentResult<ChunkItem>>, ChunkingError>,
    graph: &ModuleGraph,
    expected: Result<Option<ChunkContent>, Module>,
) -> bool {
    match r {
        Ok(Some(content)) => expected == Ok::<Option<ChunkContent>, Module>(Some(content@)),
        Ok(None) => expected == Ok::<Option<ChunkContent>, Module>(None),
        Err(e) => expected matches Err(module) && e.names(graph, module),
    }
}

/// Sorts graph nodes into the three lists of a chunk's content.
pub fn collect(nodes: Vec<ChunkContentGraphNode>, availability_info: AvailabilityInfo) -> (r:
    ChunkContentResult<ChunkItem>)
    ensures
        r@ == collect_spec(nodes@, availability_info),
{
    let mut chunk_items: Vec<ChunkItem> = Vec::new();
    let mut chunks: Vec<Chunk> = Vec::new();
    let mut external_module_references: Vec<ModuleReference> = Vec::new();
    let mut i: usize = 0;
    while i < nodes.len()
        invariant
            i <= nodes.len(),
            chunk_items@ == collect_chunk_items(nodes@.take(i as int)),
            chunks@ == collect_chunks(nodes@.take(i as int)),
            external_module_references@ == collect_external_module_references(
                nodes@.take(i as int),
            ),
        decreases nodes.len() - i,
    {
        proof {
            assert(nodes@.take(i + 1).drop_last() =~= nodes@.take(i as int));
        }
        match nodes[i] {
            ChunkContentGraphNode::AvailableAsset(_)
            | ChunkContentGraphNode::PassthroughModule { .. } => {},
            ChunkContentGraphNode::ChunkItem { item } => {
                chunk_items.push(item);
            },
            ChunkContentGraphNode::Chunk(chunk) => {
                chunks.push(chunk);
            },
            ChunkContentGraphNode::ExternalModuleReference(reference) => {
                external_module_references.push(reference);
            },
        }
        i += 1;
    }
    proof {
        assert(nodes@.take(i as int) =~= nodes@);
    }
    ChunkContentResult { chunk_items, chunks, external_module_references, availability_info }
}

/// The edges that the walk starts with: one for the entry and one for each
/// additional entry.
fn make_root_edges(graph: &ModuleGraph, entry: Module, additional_entries: Option<Vec<Module>>) -> (r:
    Vec<GraphEdge>)
    requires
        entries_have_items(graph, all_entries(entry, additional_entries)),
    ensures
        r@ == root_edges(graph, all_entries(entry, additional_entries)),
{
    let ghost entries = all_entries(entry, additional_entries);
    let mut edges: Vec<GraphEdge> = Vec::new();
    assert(entries[0] == entry);
    let item = graph.from_asset(entry).unwrap();
    edges.push((Some((entry, ChunkingType::Placed)), ChunkContentGraphNode::ChunkItem { item }));
    assert(edges@ =~= root_edges(graph, entries.take(1)));
    match additional_entries {
        Some(more) => {
            let mut i: usize = 0;
            while i < more.len()
                invariant
                    i <= more.len(),
                    entries == seq![entry] + more@,
                    entries_have_items(graph, entries),
                    edges@ == root_edges(graph, entries.take(i + 1)),
                decreases more.len() - i,
            {
                let module = more[i];
                assert(entries[i + 1] == module);
                let item = graph.from_asset(module).unwrap();
                edges.push(
                    (
                        Some((module, ChunkingType::Placed)),
                        ChunkContentGraphNode::ChunkItem { item },
                    ),
                );
                assert(edges@ =~= root_edges(graph, entries.take(i + 2)));
                i += 1;
            }
            assert(entries.take(i + 1) =~= entries);
        },
        None => {
            assert(entries.take(1) =~= entries);
        },
    }
    edges
}

/// Computes the content of the chunk of `entry`, with or without splitting.
pub fn chunk_content_internal(
    graph: &ModuleGraph,
    chunking_context: &ChunkingContext,
    entry: Module,
    additional_entries: Option<Vec<Module>>,
    availability_info: AvailabilityInfo,
    split: bool,
) -> (r: Result<Option<ChunkContentResult<ChunkItem>>, ChunkingError>)
    requires
        entries_have_items(graph, all_entries(entry, additional_entries)),
    ensures
        chunk_content_result_is(
            r,
            graph,
            chunk_content_spec(
                (ChunkContentContext { graph, chunking_context, entry, availability_info, split }),
                all_entries(entry, additional_entries),
            ),
        ),
        r matches Ok(Some(content)) ==> holds_nothing_twice(content@),
        r matches Ok(Some(content)) ==> holds_what_is_reached(
            (ChunkContentContext { graph, chunking_context, entry, availability_info, split }),
            all_entries(entry, additional_entries),
            content@,
        ),
        r matches Ok(Some(content)) ==> !split ==> content.chunk_items.len()
            < MAX_CHUNK_ITEMS_COUNT,
        split ==> r != Ok::<Option<ChunkContentResult<ChunkItem>>, ChunkingError>(None),
{
    let root_edges = make_root_edges(graph, entry, additional_entries);
    let chunk_content_context = ChunkContentContext {
        graph,
        chunking_context,
        entry,
        split,
        availability_info,
    };
    let visit = ChunkContentVisit::new(chunk_content_context);
    let traversal_result = match AdjacencyMap::new().visit(root_edges, visit) {
        GraphTraversalResult::Completed(traversal_result) => traversal_result,
        GraphTraversalResult::Aborted => {
            proof {
                if split {
                    lemma_split_never_gives_up(
                        chunk_content_context,
                        all_entries(entry, additional_entries),
                    );
                }
            }
            return Ok(None);
        },
    };
    let map = match traversal_result {
        Ok(map) => map,
        Err(e) => {
            return Err(e);
        },
    };
    let graph_nodes = map.into_reverse_topological();
    let content = collect(graph_nodes, availability_info);
    proof {
        let entries = all_entries(entry, additional_entries);
        lemma_content_holds_nothing_twice(chunk_content_context, entries, content@);
        lemma_content_is_what_is_reached(chunk_content_context, entries, content@);
        if !split {
            lemma_content_is_bounded(chunk_content_context, entries, content@);
        }
    }
    Ok(Some(content))
}

/// In split mode the visitor never stops the walk while edges are visited.
pub proof fn lemma_split_visits_all(
    walk: Walk,
    recorded: Seq<ChunkContentGraphNode>,
    edges: Seq<GraphEdge>,
)
    ensures
        visit_edges_spec(true, walk, recorded, edges) is Done,
    decreases edges.len(),
{
    if edges.len() > 0 {
        let (visit, flow) = visit_spec(true, walk.visit, edges.first());
        let visited = Walk { visit, ..walk };
        match flow {
            VisitControlFlow::Continue(node) => {
                lemma_split_visits_all(
                    crate::traversal::schedule_spec(visited, node),
                    recorded.push(node),
                    edges.drop_first(),
                );
            },
            VisitControlFlow::Skip(node) => {
                lemma_split_visits_all(visited, recorded.push(node), edges.drop_first());
            },
            VisitControlFlow::Abort => {},
        }
    }
}

/// In split mode a walk is never aborted.
pub proof fn lemma_split_runs_to_end(ctx: ChunkContentContext, walk: Walk)
    requires
        ctx.split,
    ensures
        !(run_spec(ctx, walk) is Aborted),
    decreases walk_measure(walk),
{
    if walk.successors.len() < walk.nodes.len() {
        match edges_spec(ctx, walk.nodes[walk.successors.len() as int]) {
            Err(_) => {},
            Ok(edges) => {
                lemma_split_visits_all(walk, Seq::empty(), edges);
                lemma_visit_edges_measure(true, walk, Seq::empty(), edges);
                match visit_edges_spec(true, walk, Seq::empty(), edges) {
                    VisitedEdges::Done(after, recorded) => {
                        lemma_split_runs_to_end(ctx, expanded(after, recorded));
                    },
                    VisitedEdges::Aborted => {},
                }
            },
        }
    }
}

/// In split mode the chunk never counts as too large: the content is
/// computed or the computation fails, and it is never given up.
pub proof fn lemma_split_never_gives_up(ctx: ChunkContentContext, entries: Seq<Module>)
    requires
        ctx.split,
    ensures
        chunk_content_spec(ctx, entries) != Ok::<Option<ChunkContent>, Module>(None),
{
    let start = initial_walk(
        initial_visit_state(),
        ctx.graph.chunk_items@.len(),
        ctx.graph.modules@.len(),
    );
    let edges = root_edges(ctx.graph, entries);
    lemma_split_visits_all(start, Seq::empty(), edges);
    match visit_edges_spec(true, start, Seq::empty(), edges) {
        VisitedEdges::Done(after, recorded) => {
            lemma_split_runs_to_end(ctx, Walk { roots: recorded, ..after });
        },
        VisitedEdges::Aborted => {},
    }
}

/// Computes the content of the chunk of `entry` with splitting: every
/// destination that may go to a chunk of its own does so, and the chunk may
/// grow without bound. Fails exactly when a module has to be placed and
/// cannot be.
pub fn chunk_content_split(
    graph: &ModuleGraph,
    chunking_context: &ChunkingContext,
    entry: Module,
    additional_entries: Option<Vec<Module>>,
    availability_info: AvailabilityInfo,
) -> (r: Result<ChunkContentResult<ChunkItem>, ChunkingError>)
    requires
        entries_have_items(graph, all_entries(entry, additional_entries)),
    ensures
        match r {
            Ok(content) => chunk_content_spec(
                (ChunkContentContext {
                    graph,
                    chunking_context,
                    entry,
                    availability_info,
                    split: true,
                }),
                all_entries(entry, additional_entries),
            ) == Ok::<Option<ChunkContent>, Module>(Some(content@)),
            Err(e) => chunk_content_spec(
                (ChunkContentContext {
                    graph,
                    chunking_context,
                    entry,
                    availability_info,
                    split: true,
                }),
                all_entries(entry, additional_entries),
            ) matches Err(module) && e.names(graph, module),
        },
        r matches Ok(content) ==> holds_nothing_twice(content@),
        r matches Ok(content) ==> holds_what_is_reached(
            (ChunkContentContext { graph, chunking_context, entry, availability_info, split: true }),
            all_entries(entry, additional_entries),
            content@,
        ),
{
    match chunk_content_internal(
        graph,
        chunking_context,
        entry,
        additional_entries,
        availability_info,
        true,
    ) {
        Ok(Some(content)) => Ok(content),
        Ok(None) => vstd::pervasive::unreached(),
        Err(e) => Err(e),
    }
}

/// Computes the content of the chunk of `entry` without splitting. The
/// answer is `Ok(None)` exactly when the chunk grew too large, and the
/// caller is expected to try again with splitting. Fails exactly when a
/// module has to be placed and cannot be.
pub fn chunk_content(
    graph: &ModuleGraph,
    chunking_context: &ChunkingContext,
    entry: Module,
    additional_entries: Option<Vec<Module>>,
    availability_info: AvailabilityInfo,
) -> (r: Result<Option<ChunkContentResult<ChunkItem>>, ChunkingError>)
    requires
        entries_have_items(graph, all_entries(entry, additional_entries)),
    ensures
        chunk_content_result_is(
            r,
            graph,
            chunk_content_spec(
                (ChunkContentContext {
                    graph,
                    chunking_context,
                    entry,
                    availability_info,
                    split: false,
                }),
                all_entries(entry, additional_entries),
            ),
        ),
        r matches Ok(Some(content)) ==> content.chunk_items.len() < MAX_CHUNK_ITEMS_COUNT,
        r matches Ok(Some(content)) ==> holds_nothing_twice(content@),
        r matches Ok(Some(content)) ==> holds_what_is_reached(
            (ChunkContentContext {
                graph,
                chunking_context,
                entry,
                availability_info,
                split: false,
            }),
            all_entries(entry, additional_entries),
            content@,
        ),
{
    chunk_content_internal(
        graph,
        chunking_context,
        entry,
        additional_entries,
        availability_info,
        false,
    )
}

} // verus!
