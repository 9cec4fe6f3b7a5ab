//! The ledger of a walk: the items of the chunk-item nodes that the walk has
//! recorded. It ties the nodes that are recorded to the keys that the
//! visitor has seen, to the chunk items that it has counted, and to the
//! nodes whose edges are followed.

use vstd::prelude::*;

use crate::classify::classify_module_spec;
use crate::classify::classify_modules_spec;
use crate::classify::reference_to_graph_nodes_spec;
use crate::classify::ChunkContentContext;
use crate::classify::ChunkContentGraphNode;
use crate::classify::Classified;
use crate::classify::ClassifiedList;
use crate::classify::GraphEdge;
use crate::content::root_edges;
use crate::graph::ChunkItem;
use crate::graph::ChunkingType;
use crate::graph::Module;
use crate::graph::ModuleReference;
use crate::invariants::lemma_visit_edges_keeps_nodes;
use crate::traversal::expanded;
use crate::traversal::initial_walk;
use crate::traversal::lemma_visit_edges_measure;
use crate::traversal::run_spec;
use crate::traversal::schedule_spec;
use crate::traversal::traverse_spec;
use crate::traversal::visit_edges_spec;
use crate::traversal::walk_measure;
use crate::traversal::VisitedEdges;
use crate::traversal::Walk;
use crate::traversal::WalkOutcome;
use crate::visit::edges_spec;
use crate::visit::initial_visit_state;
use crate::visit::node_references;
use crate::visit::references_to_graph_nodes_spec;
use crate::visit::visit_spec;
use crate::visit::VisitControlFlow;
use crate::visit::MAX_CHUNK_ITEMS_COUNT;

verus! {

/// The item of the chunk-item node that an edge with the given key carries,
/// if it carries one: among the root edges the item of the entry, among the
/// classified edges the item that the classifier places.
pub open spec fn carried_item(
    ctx: ChunkContentContext,
    roots: bool,
    module: Module,
    chunking_type: ChunkingType,
) -> Option<ChunkItem> {
    if roots {
        if chunking_type == ChunkingType::Placed {
            Some(ctx.graph.spec_from_asset(module)->0)
        } else {
            None
        }
    } else {
        match classify_module_spec(ctx, chunking_type, module) {
            Classified::Node(_, ChunkContentGraphNode::ChunkItem { item }) => Some(item),
            _ => None,
        }
    }
}

/// The node of the edge is what its key says: a chunk item exactly where
/// the key carries one, and then that item. An edge without a key has no
/// chunk item, and an edge with a key has no passthrough module.
pub open spec fn edge_fits(ctx: ChunkContentContext, roots: bool, edge: GraphEdge) -> bool {
    match edge.0 {
        None => !(edge.1 is ChunkItem),
        Some((module, chunking_type)) => {
            &&& roots ==> chunking_type == ChunkingType::Placed
            &&& !(edge.1 is PassthroughModule)
            &&& match edge.1 {
                ChunkContentGraphNode::ChunkItem { item } => carried_item(
                    ctx,
                    roots,
                    module,
                    chunking_type,
                ) == Some(item),
                _ => carried_item(ctx, roots, module, chunking_type) is None,
            }
        },
    }
}

/// Every edge of the list fits its key.
pub open spec fn edges_fit(ctx: ChunkContentContext, roots: bool, edges: Seq<GraphEdge>) -> bool {
    forall|k: int| 0 <= k < edges.len() ==> edge_fits(ctx, roots, #[trigger] edges[k])
}

/// The item that each of the keys seen carries is in the ledger.
pub open spec fn keys_fit(
    ctx: ChunkContentContext,
    roots: bool,
    processed_assets: Set<(ChunkingType, Module)>,
    ledger: Seq<ChunkItem>,
) -> bool {
    forall|chunking_type: ChunkingType, module: Module| #[trigger]
        processed_assets.contains((chunking_type, module)) ==> {
            &&& roots ==> chunking_type == ChunkingType::Placed
            &&& carried_item(ctx, roots, module, chunking_type) matches Some(item)
                ==> ledger.contains(item)
        }
}

/// The item of every chunk-item node in the list is in the ledger.
pub open spec fn items_in_ledger(nodes: Seq<ChunkContentGraphNode>, ledger: Seq<ChunkItem>) -> bool {
    forall|k: int|
        0 <= k < nodes.len() ==> ((#[trigger] nodes[k]) matches ChunkContentGraphNode::ChunkItem {
            item,
        } ==> ledger.contains(item))
}

/// The ledger lists, once each, the items of all chunk-item nodes that the
/// walk has recorded. Every item of the ledger that the graph knows is
/// flagged as scheduled, and every flagged item has its node among the
/// nodes whose edges are followed.
pub open spec fn covered(
    ctx: ChunkContentContext,
    walk: Walk,
    recorded: Seq<ChunkContentGraphNode>,
    ledger: Seq<ChunkItem>,
) -> bool {
    &&& ledger.no_duplicates()
    &&& walk.scheduled_items.len() == ctx.graph.chunk_items@.len()
    &&& items_in_ledger(walk.roots, ledger)
    &&& forall|j: int|
        0 <= j < walk.successors.len() ==> items_in_ledger(#[trigger] walk.successors[j], ledger)
    &&& items_in_ledger(recorded, ledger)
    &&& forall|item: ChunkItem|
        #[trigger] ledger.contains(item) && item.0 < walk.scheduled_items.len()
            ==> walk.scheduled_items[item.0 as int]
    &&& forall|item: ChunkItem|
        item.0 < walk.scheduled_items.len() && walk.scheduled_items[item.0 as int]
            ==> #[trigger] walk.nodes.contains(ChunkContentGraphNode::ChunkItem { item })
}

/// The ledger is no longer than the number of chunk items counted, which is
/// below the maximum.
pub open spec fn bounded(walk: Walk, ledger: Seq<ChunkItem>) -> bool {
    &&& ledger.len() <= walk.visit.chunk_items_count
    &&& walk.visit.chunk_items_count < MAX_CHUNK_ITEMS_COUNT
}

/// The nodes of a list of edges.
pub open spec fn edge_nodes(edges: Seq<GraphEdge>) -> Seq<ChunkContentGraphNode> {
    edges.map_values(|edge: GraphEdge| edge.1)
}

/// The successors recorded for the node at position `j` are the nodes of
/// its edges.
pub open spec fn stored_at(ctx: ChunkContentContext, walk: Walk, j: int) -> bool {
    &&& edges_spec(ctx, walk.nodes[j]) is Ok
    &&& walk.successors[j] == edge_nodes(edges_spec(ctx, walk.nodes[j])->Ok_0)
}

/// The successors recorded for each node are the nodes of its edges.
pub open spec fn stored_edges(ctx: ChunkContentContext, walk: Walk) -> bool {
    &&& walk.successors.len() <= walk.nodes.len()
    &&& forall|j: int| 0 <= j < walk.successors.len() ==> #[trigger] stored_at(ctx, walk, j)
}

/// Every item of the first ledger is in the second.
pub open spec fn ledger_grows(ledger: Seq<ChunkItem>, next: Seq<ChunkItem>) -> bool {
    forall|item: ChunkItem| ledger.contains(item) ==> next.contains(item)
}

/// The ledger with one more item, if it is not in it.
pub open spec fn with_item(ledger: Seq<ChunkItem>, item: ChunkItem) -> Seq<ChunkItem> {
    if ledger.contains(item) {
        ledger
    } else {
        ledger.push(item)
    }
}

/// Adding an item keeps the ledger free of duplicates, keeps what was in
/// it, and makes it longer by one at most.
pub proof fn lemma_with_item(ledger: Seq<ChunkItem>, item: ChunkItem)
    requires
        ledger.no_duplicates(),
    ensures
        with_item(ledger, item).no_duplicates(),
        with_item(ledger, item).contains(item),
        ledger_grows(ledger, with_item(ledger, item)),
        with_item(ledger, item).len() <= ledger.len() + 1,
{
    let next = with_item(ledger, item);
    if !ledger.contains(item) {
        assert(next[ledger.len() as int] == item);
        assert forall|i: int, j: int| 0 <= i < j < next.len() implies next[i] != next[j] by {
            if j == ledger.len() {
                assert(ledger.contains(next[i]));
            }
        }
        assert forall|other: ChunkItem| ledger.contains(other) implies next.contains(other) by {
            let i = choose|i: int| 0 <= i < ledger.len() && ledger[i] == other;
            assert(next[i] == other);
        }
    }
}

/// One more node in a list whose items are in the ledger.
pub proof fn lemma_push_in_ledger(
    nodes: Seq<ChunkContentGraphNode>,
    node: ChunkContentGraphNode,
    ledger: Seq<ChunkItem>,
)
    requires
        items_in_ledger(nodes, ledger),
        node matches ChunkContentGraphNode::ChunkItem { item } ==> ledger.contains(item),
    ensures
        items_in_ledger(nodes.push(node), ledger),
{
    assert forall|k: int| 0 <= k < nodes.push(node).len() implies ((#[trigger] nodes.push(
        node,
    )[k]) matches ChunkContentGraphNode::ChunkItem { item } ==> ledger.contains(item)) by {
        if k < nodes.len() {
            assert(nodes.push(node)[k] == nodes[k]);
        }
    }
}

/// One more node among the nodes whose edges are followed.
pub proof fn lemma_push_contains(
    nodes: Seq<ChunkContentGraphNode>,
    node: ChunkContentGraphNode,
    other: ChunkContentGraphNode,
)
    ensures
        nodes.push(node).contains(node),
        nodes.contains(other) ==> nodes.push(node).contains(other),
{
    assert(nodes.push(node)[nodes.len() as int] == node);
    if nodes.contains(other) {
        let k = choose|k: int| 0 <= k < nodes.len() && nodes[k] == other;
        assert(nodes.push(node)[k] == other);
    }
}

/// Following an edge to a node keeps the ledger in step with the flags and
/// with the nodes whose edges are followed.
pub proof fn lemma_schedule_covers(
    ctx: ChunkContentContext,
    walk: Walk,
    recorded: Seq<ChunkContentGraphNode>,
    node: ChunkContentGraphNode,
    ledger: Seq<ChunkItem>,
)
    requires
        covered(ctx, walk, recorded, ledger),
    ensures
        covered(
            ctx,
            schedule_spec(walk, node),
            recorded.push(node),
            match node {
                ChunkContentGraphNode::ChunkItem { item } => with_item(ledger, item),
                _ => ledger,
            },
        ),
        schedule_spec(walk, node).visit == walk.visit,
        ledger_grows(
            ledger,
            match node {
                ChunkContentGraphNode::ChunkItem { item } => with_item(ledger, item),
                _ => ledger,
            },
        ),
{
    let grown = match node {
        ChunkContentGraphNode::ChunkItem { item } => with_item(ledger, item),
        _ => ledger,
    };
    let after = schedule_spec(walk, node);
    if let ChunkContentGraphNode::ChunkItem { item } = node {
        lemma_with_item(ledger, item);
    }
    lemma_push_in_ledger(recorded, node, grown);
    assert(items_in_ledger(after.roots, grown));
    assert forall|j: int| 0 <= j < after.successors.len() implies items_in_ledger(
        #[trigger] after.successors[j],
        grown,
    ) by {
        assert(items_in_ledger(walk.successors[j], ledger));
    }
    assert forall|item: ChunkItem| #[trigger]
        grown.contains(item) && item.0 < after.scheduled_items.len()
        implies after.scheduled_items[item.0 as int] by {
        if ledger.contains(item) {
            assert(walk.scheduled_items[item.0 as int]);
        }
    }
    assert forall|item: ChunkItem|
        item.0 < after.scheduled_items.len() && after.scheduled_items[item.0 as int]
        implies #[trigger] after.nodes.contains(ChunkContentGraphNode::ChunkItem { item }) by {
        let wanted = ChunkContentGraphNode::ChunkItem { item };
        lemma_push_contains(walk.nodes, node, wanted);
        if walk.scheduled_items[item.0 as int] {
            assert(walk.nodes.contains(wanted));
        } else {
            assert(node == wanted);
            assert(after.nodes == walk.nodes.push(node));
        }
    }
}

/// Visiting edges that fit their keys keeps the ledger: the answer is the
/// ledger afterwards. Outside split mode the ledger stays within the count.
pub proof fn lemma_visit_edges_counts(
    ctx: ChunkContentContext,
    roots: bool,
    walk: Walk,
    recorded: Seq<ChunkContentGraphNode>,
    edges: Seq<GraphEdge>,
    ledger: Seq<ChunkItem>,
) -> (next: Seq<ChunkItem>)
    requires
        covered(ctx, walk, recorded, ledger),
        keys_fit(ctx, roots, walk.visit.processed_assets, ledger),
        edges_fit(ctx, roots, edges),
        !ctx.split ==> bounded(walk, ledger),
    ensures
        match visit_edges_spec(ctx.split, walk, recorded, edges) {
            VisitedEdges::Done(after, nodes) => {
                &&& covered(ctx, after, nodes, next)
                &&& keys_fit(ctx, roots, after.visit.processed_assets, next)
                &&& !ctx.split ==> bounded(after, next)
                &&& nodes == recorded + edge_nodes(edges)
            },
            VisitedEdges::Aborted => true,
        },
    decreases edges.len(),
{
    if edges.len() == 0 {
        assert(recorded + edge_nodes(edges) =~= recorded);
        ledger
    } else {
        let edge = edges.first();
        assert(edge_fits(ctx, roots, edges[0]));
        assert forall|k: int| 0 <= k < edges.drop_first().len() implies edge_fits(
            ctx,
            roots,
            #[trigger] edges.drop_first()[k],
        ) by {
            assert(edges.drop_first()[k] == edges[k + 1]);
        }
        assert(recorded.push(edge.1) + edge_nodes(edges.drop_first()) =~= recorded + edge_nodes(
            edges,
        ));
        let (visit, flow) = visit_spec(ctx.split, walk.visit, edge);
        let visited = Walk { visit, ..walk };
        match flow {
            VisitControlFlow::Continue(node) => {
                let grown = match node {
                    ChunkContentGraphNode::ChunkItem { item } => with_item(ledger, item),
                    _ => ledger,
                };
                assert(covered(ctx, visited, recorded, ledger));
                lemma_schedule_covers(ctx, visited, recorded, node, ledger);
                if let ChunkContentGraphNode::ChunkItem { item } = node {
                    lemma_with_item(ledger, item);
                }
                let scheduled = schedule_spec(visited, node);
                assert(keys_fit(ctx, roots, visit.processed_assets, grown)) by {
                    assert forall|chunking_type: ChunkingType, module: Module| #[trigger]
                        visit.processed_assets.contains((chunking_type, module)) implies {
                        &&& roots ==> chunking_type == ChunkingType::Placed
                        &&& carried_item(ctx, roots, module, chunking_type) matches Some(item)
                            ==> grown.contains(item)
                    } by {
                        if walk.visit.processed_assets.contains((chunking_type, module)) {
                        } else {
                            assert(edge.0 == Some((module, chunking_type)));
                        }
                    }
                }
                lemma_visit_edges_counts(
                    ctx,
                    roots,
                    scheduled,
                    recorded.push(node),
                    edges.drop_first(),
                    grown,
                )
            },
            VisitControlFlow::Skip(node) => {
                lemma_push_in_ledger(recorded, node, ledger);
                lemma_visit_edges_counts(
                    ctx,
                    roots,
                    visited,
                    recorded.push(node),
                    edges.drop_first(),
                    ledger,
                )
            },
            VisitControlFlow::Abort => ledger,
        }
    }
}

/// Every passthrough module of the list that the graph knows is flagged as
/// scheduled.
pub open spec fn modules_flagged(flags: Seq<bool>, nodes: Seq<ChunkContentGraphNode>) -> bool {
    forall|k: int|
        0 <= k < nodes.len() ==> ((#[trigger] nodes[k])
            matches ChunkContentGraphNode::PassthroughModule { asset } ==> asset.0 < flags.len()
            ==> flags[asset.0 as int])
}

/// Every passthrough module that the walk has recorded and that the graph
/// knows is flagged as scheduled, and every flagged module has its node
/// among the nodes whose edges are followed.
pub open spec fn followed(
    ctx: ChunkContentContext,
    walk: Walk,
    recorded: Seq<ChunkContentGraphNode>,
) -> bool {
    &&& walk.scheduled_modules.len() == ctx.graph.modules@.len()
    &&& modules_flagged(walk.scheduled_modules, walk.roots)
    &&& forall|j: int|
        0 <= j < walk.successors.len() ==> modules_flagged(
            walk.scheduled_modules,
            #[trigger] walk.successors[j],
        )
    &&& modules_flagged(walk.scheduled_modules, recorded)
    &&& forall|asset: Module|
        asset.0 < walk.scheduled_modules.len() && walk.scheduled_modules[asset.0 as int]
            ==> #[trigger] walk.nodes.contains(
            ChunkContentGraphNode::PassthroughModule { asset },
        )
}

/// Flags that are set stay set.
pub open spec fn flags_grow(flags: Seq<bool>, next: Seq<bool>) -> bool {
    flags.len() == next.len() && forall|i: int| 0 <= i < flags.len() && flags[i] ==> next[i]
}

/// What was flagged stays flagged when flags are set.
pub proof fn lemma_modules_stay_flagged(
    flags: Seq<bool>,
    next: Seq<bool>,
    nodes: Seq<ChunkContentGraphNode>,
)
    requires
        modules_flagged(flags, nodes),
        flags_grow(flags, next),
    ensures
        modules_flagged(next, nodes),
{
    assert forall|k: int| 0 <= k < nodes.len() implies ((#[trigger] nodes[k])
        matches ChunkContentGraphNode::PassthroughModule { asset } ==> asset.0 < next.len()
        ==> next[asset.0 as int]) by {
        if let ChunkContentGraphNode::PassthroughModule { asset } = nodes[k] {
            if asset.0 < next.len() {
                assert(flags[asset.0 as int]);
            }
        }
    }
}

/// One more node in a list of flagged modules.
pub proof fn lemma_push_flagged(
    flags: Seq<bool>,
    nodes: Seq<ChunkContentGraphNode>,
    node: ChunkContentGraphNode,
)
    requires
        modules_flagged(flags, nodes),
        node matches ChunkContentGraphNode::PassthroughModule { asset } ==> asset.0 < flags.len()
            ==> flags[asset.0 as int],
    ensures
        modules_flagged(flags, nodes.push(node)),
{
    assert forall|k: int| 0 <= k < nodes.push(node).len() implies ((#[trigger] nodes.push(
        node,
    )[k]) matches ChunkContentGraphNode::PassthroughModule { asset } ==> asset.0 < flags.len()
        ==> flags[asset.0 as int]) by {
        if k < nodes.len() {
            assert(nodes.push(node)[k] == nodes[k]);
        }
    }
}

/// Following an edge to a node keeps the passthrough modules in step with
/// the flags and with the nodes whose edges are followed.
pub proof fn lemma_schedule_follows(
    ctx: ChunkContentContext,
    walk: Walk,
    recorded: Seq<ChunkContentGraphNode>,
    node: ChunkContentGraphNode,
)
    requires
        followed(ctx, walk, recorded),
    ensures
        followed(ctx, schedule_spec(walk, node), recorded.push(node)),
{
    let after = schedule_spec(walk, node);
    let flags = walk.scheduled_modules;
    let next = after.scheduled_modules;
    assert(flags_grow(flags, next));
    lemma_modules_stay_flagged(flags, next, walk.roots);
    lemma_modules_stay_flagged(flags, next, recorded);
    lemma_push_flagged(next, recorded, node);
    assert forall|j: int| 0 <= j < after.successors.len() implies modules_flagged(
        next,
        #[trigger] after.successors[j],
    ) by {
        lemma_modules_stay_flagged(flags, next, walk.successors[j]);
    }
    assert forall|asset: Module| asset.0 < next.len() && next[asset.0 as int]
        implies #[trigger] after.nodes.contains(
        ChunkContentGraphNode::PassthroughModule { asset },
    ) by {
        let wanted = ChunkContentGraphNode::PassthroughModule { asset };
        lemma_push_contains(walk.nodes, node, wanted);
        if flags[asset.0 as int] {
            assert(walk.nodes.contains(wanted));
        } else {
            assert(node == wanted);
            assert(after.nodes == walk.nodes.push(node));
        }
    }
}

/// Visiting edges that fit their keys keeps the passthrough modules in step
/// with the flags.
pub proof fn lemma_visit_edges_follows(
    ctx: ChunkContentContext,
    roots: bool,
    walk: Walk,
    recorded: Seq<ChunkContentGraphNode>,
    edges: Seq<GraphEdge>,
)
    requires
        followed(ctx, walk, recorded),
        edges_fit(ctx, roots, edges),
    ensures
        visit_edges_spec(ctx.split, walk, recorded, edges) matches VisitedEdges::Done(after, nodes)
            ==> followed(ctx, after, nodes),
    decreases edges.len(),
{
    if edges.len() > 0 {
        let edge = edges.first();
        assert(edge_fits(ctx, roots, edges[0]));
        assert forall|k: int| 0 <= k < edges.drop_first().len() implies edge_fits(
            ctx,
            roots,
            #[trigger] edges.drop_first()[k],
        ) by {
            assert(edges.drop_first()[k] == edges[k + 1]);
        }
        let (visit, flow) = visit_spec(ctx.split, walk.visit, edge);
        let visited = Walk { visit, ..walk };
        assert(followed(ctx, visited, recorded));
        match flow {
            VisitControlFlow::Continue(node) => {
                lemma_schedule_follows(ctx, visited, recorded, node);
                lemma_visit_edges_follows(
                    ctx,
                    roots,
                    schedule_spec(visited, node),
                    recorded.push(node),
                    edges.drop_first(),
                );
            },
            VisitControlFlow::Skip(node) => {
                lemma_push_flagged(walk.scheduled_modules, recorded, node);
                lemma_visit_edges_follows(
                    ctx,
                    roots,
                    visited,
                    recorded.push(node),
                    edges.drop_first(),
                );
            },
            VisitControlFlow::Abort => {},
        }
    }
}

/// The edges that the classifier makes of a list of modules fit their keys.
pub proof fn lemma_classified_modules_fit(
    ctx: ChunkContentContext,
    chunking_type: ChunkingType,
    modules: Seq<Module>,
)
    ensures
        classify_modules_spec(ctx, chunking_type, modules) matches ClassifiedList::Nodes(nodes)
            ==> edges_fit(ctx, false, nodes),
    decreases modules.len(),
{
    if modules.len() > 0 {
        lemma_classified_modules_fit(ctx, chunking_type, modules.drop_last());
        if let ClassifiedList::Nodes(before) = classify_modules_spec(
            ctx,
            chunking_type,
            modules.drop_last(),
        ) {
            if let Classified::Node(key, node) = classify_module_spec(
                ctx,
                chunking_type,
                modules.last(),
            ) {
                let nodes = before.push((key, node));
                assert forall|k: int| 0 <= k < nodes.len() implies edge_fits(
                    ctx,
                    false,
                    #[trigger] nodes[k],
                ) by {
                    if k < before.len() {
                        assert(nodes[k] == before[k]);
                    }
                }
            }
        }
    }
}

/// The edges that the classifier makes of a list of references fit their
/// keys.
pub proof fn lemma_classified_references_fit(
    ctx: ChunkContentContext,
    references: Seq<ModuleReference>,
)
    ensures
        references_to_graph_nodes_spec(ctx, references) matches Ok(edges) ==> edges_fit(
            ctx,
            false,
            edges,
        ),
    decreases references.len(),
{
    if references.len() > 0 {
        lemma_classified_references_fit(ctx, references.drop_last());
        if let Ok(before) = references_to_graph_nodes_spec(ctx, references.drop_last()) {
            if let Ok(more) = reference_to_graph_nodes_spec(ctx, references.last()) {
                if let Some(chunking_type) = ctx.graph.spec_chunking_type(references.last()) {
                    lemma_classified_modules_fit(
                        ctx,
                        chunking_type,
                        ctx.graph.spec_primary_modules(references.last()),
                    );
                }
                assert(edges_fit(ctx, false, more));
                let edges = before + more;
                assert forall|k: int| 0 <= k < edges.len() implies edge_fits(
                    ctx,
                    false,
                    #[trigger] edges[k],
                ) by {
                    if k < before.len() {
                        assert(edges[k] == before[k]);
                    } else {
                        assert(edges[k] == more[k - before.len()]);
                    }
                }
            }
        }
    }
}

/// Running a walk keeps the ledger: the answer is the ledger at the end.
/// At the end every scheduled node is expanded, and the successors recorded
/// for it are the nodes of its edges.
pub proof fn lemma_run_counts(ctx: ChunkContentContext, walk: Walk, ledger: Seq<ChunkItem>) -> (next:
    Seq<ChunkItem>)
    requires
        covered(ctx, walk, Seq::empty(), ledger),
        followed(ctx, walk, Seq::empty()),
        keys_fit(ctx, false, walk.visit.processed_assets, ledger),
        stored_edges(ctx, walk),
        !ctx.split ==> bounded(walk, ledger),
    ensures
        run_spec(ctx, walk) matches WalkOutcome::Completed(end) ==> {
            &&& covered(ctx, end, Seq::empty(), next)
            &&& followed(ctx, end, Seq::empty())
            &&& stored_edges(ctx, end)
            &&& end.successors.len() == end.nodes.len()
            &&& end.roots == walk.roots
            &&& !ctx.split ==> bounded(end, next)
        },
    decreases walk_measure(walk),
{
    if walk.successors.len() >= walk.nodes.len() {
        ledger
    } else {
        let node = walk.nodes[walk.successors.len() as int];
        match edges_spec(ctx, node) {
            Err(_) => ledger,
            Ok(edges) => {
                lemma_classified_references_fit(ctx, node_references(ctx.graph, node));
                lemma_visit_edges_measure(ctx.split, walk, Seq::empty(), edges);
                lemma_visit_edges_keeps_nodes(ctx.split, walk, Seq::empty(), edges);
                let grown = lemma_visit_edges_counts(
                    ctx,
                    false,
                    walk,
                    Seq::empty(),
                    edges,
                    ledger,
                );
                lemma_visit_edges_follows(ctx, false, walk, Seq::empty(), edges);
                match visit_edges_spec(ctx.split, walk, Seq::empty(), edges) {
                    VisitedEdges::Done(after, recorded) => {
                        let next_walk = expanded(after, recorded);
                        assert forall|j: int|
                            0 <= j < next_walk.successors.len() implies modules_flagged(
                            next_walk.scheduled_modules,
                            #[trigger] next_walk.successors[j],
                        ) by {
                            if j < after.successors.len() {
                                assert(next_walk.successors[j] == after.successors[j]);
                            }
                        }
                        assert(recorded =~= edge_nodes(edges));
                        assert forall|j: int|
                            0 <= j < next_walk.successors.len() implies items_in_ledger(
                            #[trigger] next_walk.successors[j],
                            grown,
                        ) by {
                            if j < after.successors.len() {
                                assert(next_walk.successors[j] == after.successors[j]);
                            }
                        }
                        assert forall|j: int|
                            0 <= j < next_walk.successors.len() implies #[trigger] stored_at(
                            ctx,
                            next_walk,
                            j,
                        ) by {
                            assert(walk.nodes =~= after.nodes.subrange(
                                0,
                                walk.nodes.len() as int,
                            ));
                            assert(after.nodes.subrange(0, walk.nodes.len() as int)[j]
                                == after.nodes[j]);
                            assert(next_walk.nodes[j] == walk.nodes[j]);
                            if j < walk.successors.len() {
                                assert(next_walk.successors[j] == walk.successors[j]);
                                assert(stored_at(ctx, walk, j));
                            }
                        }
                        lemma_run_counts(ctx, next_walk, grown)
                    },
                    VisitedEdges::Aborted => ledger,
                }
            },
        }
    }
}

/// The ledger of a whole walk from the root edges, where it runs to its
/// end.
pub proof fn lemma_traverse_counts(ctx: ChunkContentContext, entries: Seq<Module>) -> (ledger:
    Seq<ChunkItem>)
    ensures
        traverse_spec(ctx, initial_visit_state(), root_edges(ctx.graph, entries))
            matches WalkOutcome::Completed(end) ==> {
            &&& covered(ctx, end, Seq::empty(), ledger)
            &&& followed(ctx, end, Seq::empty())
            &&& stored_edges(ctx, end)
            &&& end.successors.len() == end.nodes.len()
            &&& end.roots == edge_nodes(root_edges(ctx.graph, entries))
            &&& !ctx.split ==> bounded(end, ledger)
        },
{
    let start = initial_walk(
        initial_visit_state(),
        ctx.graph.chunk_items@.len(),
        ctx.graph.modules@.len(),
    );
    let edges = root_edges(ctx.graph, entries);
    assert(edges_fit(ctx, true, edges));
    let first = lemma_visit_edges_counts(ctx, true, start, Seq::empty(), edges, Seq::empty());
    lemma_visit_edges_follows(ctx, true, start, Seq::empty(), edges);
    lemma_visit_edges_measure(ctx.split, start, Seq::empty(), edges);
    match visit_edges_spec(ctx.split, start, Seq::empty(), edges) {
        VisitedEdges::Done(after, recorded) => {
            let walk = Walk { roots: recorded, ..after };
            assert(recorded =~= edge_nodes(edges));
            assert(keys_fit(ctx, false, walk.visit.processed_assets, first)) by {
                assert forall|chunking_type: ChunkingType, module: Module| #[trigger]
                    walk.visit.processed_assets.contains((chunking_type, module)) implies (
                carried_item(ctx, false, module, chunking_type) matches Some(item)
                    ==> first.contains(item)) by {
                    assert(chunking_type == ChunkingType::Placed);
                    assert(carried_item(ctx, true, module, chunking_type) matches Some(item)
                        ==> first.contains(item));
                }
            }
            lemma_run_counts(ctx, walk, first)
        },
        VisitedEdges::Aborted => Seq::empty(),
    }
}

} // verus!
