//! What holds of every classification, of every sequence of visits and of
//! every walk.

use vstd::prelude::*;

use crate::classify::classify_module_spec;
use crate::classify::parallel_chunk_node;
use crate::classify::ChunkContentContext;
use crate::classify::ChunkContentGraphNode;
use crate::classify::Classified;
use crate::classify::GraphEdge;
use crate::content::chunk_content_spec;
use crate::content::collect_spec;
use crate::content::root_edges;
use crate::content::ChunkContent;
use crate::graph::AvailabilityInfo;
use crate::graph::ChunkItem;
use crate::graph::ChunkingType;
use crate::graph::Module;
use crate::graph::ModuleReference;
use crate::traversal::expanded;
use crate::traversal::initial_walk;
use crate::traversal::lemma_visit_edges_measure;
use crate::traversal::run_spec;
use crate::traversal::schedule_spec;
use crate::traversal::traverse_spec;
use crate::traversal::visit_edges_spec;
use crate::traversal::walk_measure;
use crate::traversal::VisitedEdges;
use crate::traversal::Walk;
use crate::traversal::WalkOutcome;
use crate::visit::edges_spec;
use crate::visit::initial_visit_state;
use crate::visit::references_to_graph_nodes_spec;
use crate::visit::visit_spec;
use crate::visit::VisitControlFlow;
use crate::visit::VisitState;

verus! {

/// The keys of the edges that the visitor lets the walk follow, when it is
/// shown `edges` in order and until it stops the walk.
pub open spec fn followed_keys(split: bool, state: VisitState, edges: Seq<GraphEdge>) -> Seq<
    (ChunkingType, Module),
>
    decreases edges.len(),
{
    if edges.len() == 0 {
        Seq::empty()
    } else {
        let (after, flow) = visit_spec(split, state, edges.first());
        match flow {
            VisitControlFlow::Continue(_) => match edges.first().0 {
                Some((asset, chunking_type)) => seq![(chunking_type, asset)] + followed_keys(
                    split,
                    after,
                    edges.drop_first(),
                ),
                None => followed_keys(split, after, edges.drop_first()),
            },
            VisitControlFlow::Skip(_) => followed_keys(split, after, edges.drop_first()),
            VisitControlFlow::Abort => Seq::empty(),
        }
    }
}

/// Deduplication. Whatever edges the visitor is shown, in whatever order,
/// no two of the edges that it lets the walk follow have the same key, and
/// none has a key that the visitor had seen before.
pub proof fn lemma_followed_keys_are_distinct(
    split: bool,
    state: VisitState,
    edges: Seq<GraphEdge>,
)
    ensures
        followed_keys(split, state, edges).no_duplicates(),
        forall|key: (ChunkingType, Module)|
            followed_keys(split, state, edges).contains(key) ==> !state.processed_assets.contains(
                key,
            ),
    decreases edges.len(),
{
    if edges.len() > 0 {
        let (after, flow) = visit_spec(split, state, edges.first());
        let rest = followed_keys(split, after, edges.drop_first());
        lemma_followed_keys_are_distinct(split, after, edges.drop_first());
        if let VisitControlFlow::Continue(_) = flow {
            if let Some((asset, chunking_type)) = edges.first().0 {
                let key = (chunking_type, asset);
                let keys = seq![key] + rest;
                assert(after.processed_assets.contains(key));
                assert forall|i: int, j: int| 0 <= i < j < keys.len() implies keys[i]
                    != keys[j] by {
                    assert(rest.contains(keys[j]));
                    if i > 0 {
                        assert(keys[i] == rest[i - 1]);
                        assert(keys[j] == rest[j - 1]);
                    }
                }
                assert forall|k: (ChunkingType, Module)| keys.contains(k) implies
                    !state.processed_assets.contains(k) by {
                    let i = choose|i: int| 0 <= i < keys.len() && keys[i] == k;
                    if i > 0 {
                        assert(rest[i - 1] == k);
                        assert(rest.contains(k));
                        assert(!after.processed_assets.contains(k));
                    } else {
                        assert(k == key);
                        assert(!state.processed_assets.contains(key));
                    }
                }
            }
        }
    }
}

/// Availability pruning. A module that is available where an edge to it is
/// found contributes an `AvailableAsset` node under the key of the edge,
/// whatever the chunking type and whatever the module can do. That node
/// has no edges, so nothing behind the module is walked on its account, and
/// it lands in none of the lists of the content.
pub proof fn lemma_available_module_is_pruned(
    ctx: ChunkContentContext,
    chunking_type: ChunkingType,
    module: Module,
)
    requires
        ctx.graph.spec_is_available(ctx.availability_info, module),
    ensures
        classify_module_spec(ctx, chunking_type, module) == Classified::Node(
            Some((module, chunking_type)),
            ChunkContentGraphNode::AvailableAsset(module),
        ),
        edges_spec(ctx, ChunkContentGraphNode::AvailableAsset(module)) == Ok::<
            Seq<GraphEdge>,
            Module,
        >(Seq::empty()),
        collect_spec(seq![ChunkContentGraphNode::AvailableAsset(module)], ctx.availability_info)
            == collect_spec(Seq::empty(), ctx.availability_info),
{
    let nodes = seq![ChunkContentGraphNode::AvailableAsset(module)];
    assert(nodes.drop_last() =~= Seq::empty());
}

/// Isolation. A chunkable module behind an `IsolatedParallel` edge, neither
/// available nor a passthrough module, becomes a chunk whose availability
/// is the root at that module, with no set of available modules: nothing
/// of the availability of the referencing chunk enters it.
pub proof fn lemma_isolated_parallel_starts_a_new_root(ctx: ChunkContentContext, module: Module)
    requires
        !ctx.graph.spec_is_available(ctx.availability_info, module),
        !ctx.graph.spec_is_passthrough(module),
        ctx.graph.spec_as_chunk_item(module) is Some,
    ensures
        classify_module_spec(ctx, ChunkingType::IsolatedParallel, module) == Classified::Node(
            Some((module, ChunkingType::IsolatedParallel)),
            parallel_chunk_node(
                ctx.graph.spec_as_chunk_item(module)->0,
                AvailabilityInfo::Root { current_availability_root: module },
            ),
        ),
        (AvailabilityInfo::Root { current_availability_root: module }).spec_available_modules()
            is None,
{
}

/// The chunk behind an `IsolatedParallel` edge does not depend on the
/// availability of the referencing chunk: two contexts that differ in
/// nothing else, and in neither of which the module is available, give the
/// same node.
pub proof fn lemma_isolated_parallel_ignores_availability(
    ctx: ChunkContentContext,
    availability_info: AvailabilityInfo,
    module: Module,
)
    requires
        !ctx.graph.spec_is_available(ctx.availability_info, module),
        !ctx.graph.spec_is_available(availability_info, module),
    ensures
        classify_module_spec(ctx, ChunkingType::IsolatedParallel, module) == classify_module_spec(
            (ChunkContentContext { availability_info, ..ctx }),
            ChunkingType::IsolatedParallel,
            module,
        ),
{
}

/// Placement. Where the classifier places a chunk item for a destination,
/// the edge is `Placed` or `PlacedOrParallel` and the item is the one that
/// the item factory makes of the module, or the edge is `Async` and the
/// item is the loader of the module. A destination behind a `Parallel` or
/// `IsolatedParallel` edge is never placed in the current chunk.
pub proof fn lemma_what_is_placed(
    ctx: ChunkContentContext,
    chunking_type: ChunkingType,
    module: Module,
    item: ChunkItem,
)
    requires
        classify_module_spec(ctx, chunking_type, module) matches Classified::Node(_, node)
            && node == (ChunkContentGraphNode::ChunkItem { item }),
    ensures
        match chunking_type {
            ChunkingType::Placed | ChunkingType::PlacedOrParallel => ctx.graph.spec_from_asset(
                module,
            ) == Some(item),
            ChunkingType::Async => ctx.graph.spec_from_async_asset(module) == Some(item),
            ChunkingType::Parallel | ChunkingType::IsolatedParallel => false,
        },
        chunking_type == ChunkingType::PlacedOrParallel ==> !ctx.split
            && ctx.chunking_context.spec_can_be_in_same_chunk(ctx.entry, module),
{
}

/// Passthrough transparency. A passthrough module that is not available
/// contributes a node without a key, whatever the chunking type of the
/// edge; the edges of that node are the module's references, classified in
/// the same context; and the node itself lands in none of the lists of the
/// content.
pub proof fn lemma_passthrough_module_is_transparent(
    ctx: ChunkContentContext,
    chunking_type: ChunkingType,
    module: Module,
)
    requires
        ctx.graph.spec_is_passthrough(module),
        !ctx.graph.spec_is_available(ctx.availability_info, module),
    ensures
        classify_module_spec(ctx, chunking_type, module) == Classified::Node(
            None,
            ChunkContentGraphNode::PassthroughModule { asset: module },
        ),
        edges_spec(ctx, ChunkContentGraphNode::PassthroughModule { asset: module })
            == references_to_graph_nodes_spec(ctx, ctx.graph.spec_references(module)),
        collect_spec(
            seq![ChunkContentGraphNode::PassthroughModule { asset: module }],
            ctx.availability_info,
        ) == collect_spec(Seq::empty(), ctx.availability_info),
{
    let nodes = seq![ChunkContentGraphNode::PassthroughModule { asset: module }];
    assert(nodes.drop_last() =~= Seq::empty());
}

/// Writing the references of one list behind those of another gives the
/// edges of the first followed by the edges of the second. So the edges
/// found through a passthrough module are those that its references would
/// give at the place of the module.
pub proof fn lemma_references_in_a_row(
    ctx: ChunkContentContext,
    first: Seq<ModuleReference>,
    second: Seq<ModuleReference>,
)
    requires
        references_to_graph_nodes_spec(ctx, first) is Ok,
        references_to_graph_nodes_spec(ctx, second) is Ok,
    ensures
        references_to_graph_nodes_spec(ctx, first + second) == Ok::<Seq<GraphEdge>, Module>(
            references_to_graph_nodes_spec(ctx, first)->Ok_0 + references_to_graph_nodes_spec(
                ctx,
                second,
            )->Ok_0,
        ),
    decreases second.len(),
{
    if second.len() == 0 {
        assert(first + second =~= first);
        assert(references_to_graph_nodes_spec(ctx, first)->Ok_0 + Seq::<GraphEdge>::empty()
            =~= references_to_graph_nodes_spec(ctx, first)->Ok_0);
    } else {
        assert((first + second).drop_last() =~= first + second.drop_last());
        lemma_references_in_a_row(ctx, first, second.drop_last());
        let a = references_to_graph_nodes_spec(ctx, first)->Ok_0;
        let b = references_to_graph_nodes_spec(ctx, second.drop_last())->Ok_0;
        let c = crate::classify::reference_to_graph_nodes_spec(ctx, second.last())->Ok_0;
        assert((a + b) + c =~= a + (b + c));
    }
}

/// The same context in split mode.
pub open spec fn with_split(ctx: ChunkContentContext) -> ChunkContentContext {
    ChunkContentContext { split: true, ..ctx }
}

/// Where the visitor does not stop the walk outside split mode, it decides
/// and records the same in split mode.
pub proof fn lemma_visit_edges_same_in_split_mode(
    walk: Walk,
    recorded: Seq<ChunkContentGraphNode>,
    edges: Seq<GraphEdge>,
)
    requires
        visit_edges_spec(false, walk, recorded, edges) is Done,
    ensures
        visit_edges_spec(true, walk, recorded, edges) == visit_edges_spec(
            false,
            walk,
            recorded,
            edges,
        ),
    decreases edges.len(),
{
    if edges.len() > 0 {
        let (visit, flow) = visit_spec(false, walk.visit, edges.first());
        let visited = Walk { visit, ..walk };
        match flow {
            VisitControlFlow::Continue(node) => {
                lemma_visit_edges_same_in_split_mode(
                    schedule_spec(visited, node),
                    recorded.push(node),
                    edges.drop_first(),
                );
            },
            VisitControlFlow::Skip(node) => {
                lemma_visit_edges_same_in_split_mode(
                    visited,
                    recorded.push(node),
                    edges.drop_first(),
                );
            },
            VisitControlFlow::Abort => {},
        }
    }
}

/// Visiting edges only adds to the nodes that are scheduled.
pub proof fn lemma_visit_edges_keeps_nodes(
    split: bool,
    walk: Walk,
    recorded: Seq<ChunkContentGraphNode>,
    edges: Seq<GraphEdge>,
)
    ensures
        match visit_edges_spec(split, walk, recorded, edges) {
            VisitedEdges::Done(after, _) => walk.nodes.is_prefix_of(after.nodes),
            VisitedEdges::Aborted => true,
        },
    decreases edges.len(),
{
    if edges.len() > 0 {
        let (visit, flow) = visit_spec(split, walk.visit, edges.first());
        let visited = Walk { visit, ..walk };
        match flow {
            VisitControlFlow::Continue(node) => {
                lemma_visit_edges_keeps_nodes(
                    split,
                    schedule_spec(visited, node),
                    recorded.push(node),
                    edges.drop_first(),
                );
            },
            VisitControlFlow::Skip(node) => {
                lemma_visit_edges_keeps_nodes(split, visited, recorded.push(node), edges.drop_first());
            },
            VisitControlFlow::Abort => {},
        }
    }
}

/// A walk that is run to its end keeps the nodes that were scheduled, and
/// has expanded every node that it ends with.
pub proof fn lemma_run_keeps_nodes(ctx: ChunkContentContext, walk: Walk)
    requires
        walk.successors.len() <= walk.nodes.len(),
    ensures
        match run_spec(ctx, walk) {
            WalkOutcome::Completed(end) => walk.nodes.is_prefix_of(end.nodes)
                && end.successors.len() == end.nodes.len(),
            _ => true,
        },
    decreases walk_measure(walk),
{
    if walk.successors.len() < walk.nodes.len() {
        match edges_spec(ctx, walk.nodes[walk.successors.len() as int]) {
            Err(_) => {},
            Ok(edges) => {
                lemma_visit_edges_measure(ctx.split, walk, Seq::empty(), edges);
                lemma_visit_edges_keeps_nodes(ctx.split, walk, Seq::empty(), edges);
                match visit_edges_spec(ctx.split, walk, Seq::empty(), edges) {
                    VisitedEdges::Done(after, recorded) => {
                        lemma_run_keeps_nodes(ctx, expanded(after, recorded));
                    },
                    VisitedEdges::Aborted => {},
                }
            },
        }
    }
}

/// Every node whose edges the walk followed has the same edges in split
/// mode: the heuristic placed none of the destinations behind them.
pub open spec fn followed_edges_ignore_split(ctx: ChunkContentContext, end: Walk) -> bool {
    forall|i: int|
        0 <= i < end.nodes.len() ==> edges_spec(with_split(ctx), #[trigger] end.nodes[i])
            == edges_spec(ctx, end.nodes[i])
}

/// A walk that runs to its end outside split mode runs to the same end in
/// split mode, where the nodes it follows have the same edges there.
pub proof fn lemma_run_same_in_split_mode(ctx: ChunkContentContext, walk: Walk, end: Walk)
    requires
        !ctx.split,
        walk.successors.len() <= walk.nodes.len(),
        run_spec(ctx, walk) == WalkOutcome::Completed(end),
        followed_edges_ignore_split(ctx, end),
    ensures
        run_spec(with_split(ctx), walk) == WalkOutcome::Completed(end),
    decreases walk_measure(walk),
{
    if walk.successors.len() < walk.nodes.len() {
        let node = walk.nodes[walk.successors.len() as int];
        lemma_run_keeps_nodes(ctx, walk);
        assert(end.nodes[walk.successors.len() as int] == node);
        match edges_spec(ctx, node) {
            Err(_) => {},
            Ok(edges) => {
                lemma_visit_edges_measure(false, walk, Seq::empty(), edges);
                lemma_visit_edges_same_in_split_mode(walk, Seq::empty(), edges);
                match visit_edges_spec(false, walk, Seq::empty(), edges) {
                    VisitedEdges::Done(after, recorded) => {
                        lemma_run_same_in_split_mode(ctx, expanded(after, recorded), end);
                    },
                    VisitedEdges::Aborted => {},
                }
            },
        }
    }
}

/// Idempotent retry. Where the content is computed without splitting, and
/// every node whose edges were followed has the same edges in split mode,
/// computing it with splitting gives the same content.
pub proof fn lemma_retry_gives_the_same_content(
    ctx: ChunkContentContext,
    entries: Seq<Module>,
    content: ChunkContent,
)
    requires
        !ctx.split,
        chunk_content_spec(ctx, entries) == Ok::<Option<ChunkContent>, Module>(Some(content)),
        traverse_spec(ctx, initial_visit_state(), root_edges(ctx.graph, entries))
            matches WalkOutcome::Completed(end) && followed_edges_ignore_split(ctx, end),
    ensures
        chunk_content_spec(with_split(ctx), entries) == Ok::<Option<ChunkContent>, Module>(
            Some(content),
        ),
{
    let start = initial_walk(
        initial_visit_state(),
        ctx.graph.chunk_items@.len(),
        ctx.graph.modules@.len(),
    );
    let edges = root_edges(ctx.graph, entries);
    let end = traverse_spec(ctx, initial_visit_state(), edges)->Completed_0;
    lemma_visit_edges_same_in_split_mode(start, Seq::empty(), edges);
    lemma_visit_edges_measure(false, start, Seq::empty(), edges);
    match visit_edges_spec(false, start, Seq::empty(), edges) {
        VisitedEdges::Done(after, recorded) => {
            lemma_run_same_in_split_mode(ctx, Walk { roots: recorded, ..after }, end);
        },
        VisitedEdges::Aborted => {},
    }
}

} // verus!
