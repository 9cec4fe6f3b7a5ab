//! The size of a chunk: without splitting, a chunk holds fewer chunk items
//! than the maximum, and no chunk holds anything twice.

use vstd::prelude::*;

use crate::classify::ChunkContentContext;
use crate::classify::ChunkContentGraphNode;
use crate::content::chunk_content_spec;
use crate::content::collect_chunk_items;
use crate::content::collect_chunks;
use crate::content::collect_external_module_references;
use crate::content::root_edges;
use crate::content::ChunkContent;
use crate::graph::Chunk;
use crate::graph::ChunkItem;
use crate::graph::Module;
use crate::graph::ModuleReference;
use crate::ledger::items_in_ledger;
use crate::ledger::lemma_traverse_counts;
use crate::order::is_recorded;
use crate::order::lemma_reverse_topological_hands_out_once;
use crate::topological::reverse_topological_spec;
use crate::topological::RecordedGraph;
use crate::traversal::traverse_spec;
use crate::visit::initial_visit_state;
use crate::visit::MAX_CHUNK_ITEMS_COUNT;

verus! {

/// The chunk items collected from a list of nodes are the items of its
/// chunk-item nodes, and are distinct where the nodes are.
pub proof fn lemma_collected_chunk_items(nodes: Seq<ChunkContentGraphNode>)
    ensures
        forall|item: ChunkItem|
            collect_chunk_items(nodes).contains(item) <==> nodes.contains(
                ChunkContentGraphNode::ChunkItem { item },
            ),
        nodes.no_duplicates() ==> collect_chunk_items(nodes).no_duplicates(),
    decreases nodes.len(),
{
    if nodes.len() > 0 {
        let before = nodes.drop_last();
        lemma_collected_chunk_items(before);
        let items = collect_chunk_items(before);
        let all = collect_chunk_items(nodes);
        assert forall|item: ChunkItem| all.contains(item) <==> nodes.contains(
            ChunkContentGraphNode::ChunkItem { item },
        ) by {
            let node = ChunkContentGraphNode::ChunkItem { item };
            if all.contains(item) {
                let i = choose|i: int| 0 <= i < all.len() && all[i] == item;
                if i < items.len() {
                    assert(items.contains(item));
                    let k = choose|k: int| 0 <= k < before.len() && before[k] == node;
                    assert(nodes[k] == node);
                } else {
                    assert(nodes[nodes.len() - 1] == node);
                }
            }
            if nodes.contains(node) {
                let k = choose|k: int| 0 <= k < nodes.len() && nodes[k] == node;
                if k < before.len() {
                    assert(before[k] == node);
                    assert(items.contains(item));
                    let i = choose|i: int| 0 <= i < items.len() && items[i] == item;
                    assert(all[i] == item);
                } else {
                    assert(all[items.len() as int] == item);
                }
            }
        }
        if nodes.no_duplicates() {
            assert forall|i: int, j: int| 0 <= i < j < all.len() implies all[i] != all[j] by {
                if j == items.len() {
                    assert(items.contains(all[i]));
                    let node = ChunkContentGraphNode::ChunkItem { item: all[i] };
                    let k = choose|k: int| 0 <= k < before.len() && before[k] == node;
                    assert(nodes[k] == node);
                }
            }
        }
    }
}

/// The chunks collected from a list of nodes are the chunks of its chunk
/// nodes, and are distinct where the nodes are.
pub proof fn lemma_collected_chunks(nodes: Seq<ChunkContentGraphNode>)
    ensures
        forall|chunk: Chunk|
            collect_chunks(nodes).contains(chunk) <==> nodes.contains(
                ChunkContentGraphNode::Chunk(chunk),
            ),
        nodes.no_duplicates() ==> collect_chunks(nodes).no_duplicates(),
    decreases nodes.len(),
{
    if nodes.len() > 0 {
        let before = nodes.drop_last();
        lemma_collected_chunks(before);
        let items = collect_chunks(before);
        let all = collect_chunks(nodes);
        assert forall|chunk: Chunk| all.contains(chunk) <==> nodes.contains(
            ChunkContentGraphNode::Chunk(chunk),
        ) by {
            let node = ChunkContentGraphNode::Chunk(chunk);
            if all.contains(chunk) {
                let i = choose|i: int| 0 <= i < all.len() && all[i] == chunk;
                if i < items.len() {
                    assert(items.contains(chunk));
                    let k = choose|k: int| 0 <= k < before.len() && before[k] == node;
                    assert(nodes[k] == node);
                } else {
                    assert(nodes[nodes.len() - 1] == node);
                }
            }
            if nodes.contains(node) {
                let k = choose|k: int| 0 <= k < nodes.len() && nodes[k] == node;
                if k < before.len() {
                    assert(before[k] == node);
                    assert(items.contains(chunk));
                    let i = choose|i: int| 0 <= i < items.len() && items[i] == chunk;
                    assert(all[i] == chunk);
                } else {
                    assert(all[items.len() as int] == chunk);
                }
            }
        }
        if nodes.no_duplicates() {
            assert forall|i: int, j: int| 0 <= i < j < all.len() implies all[i] != all[j] by {
                if j == items.len() {
                    assert(items.contains(all[i]));
                    let node = ChunkContentGraphNode::Chunk(all[i]);
                    let k = choose|k: int| 0 <= k < before.len() && before[k] == node;
                    assert(nodes[k] == node);
                }
            }
        }
    }
}

/// The references collected from a list of nodes are the references of its
/// external-reference nodes, and are distinct where the nodes are.
pub proof fn lemma_collected_external_module_references(nodes: Seq<ChunkContentGraphNode>)
    ensures
        forall|reference: ModuleReference|
            collect_external_module_references(nodes).contains(reference) <==> nodes.contains(
                ChunkContentGraphNode::ExternalModuleReference(reference),
            ),
        nodes.no_duplicates() ==> collect_external_module_references(nodes).no_duplicates(),
    decreases nodes.len(),
{
    if nodes.len() > 0 {
        let before = nodes.drop_last();
        lemma_collected_external_module_references(before);
        let items = collect_external_module_references(before);
        let all = collect_external_module_references(nodes);
        assert forall|reference: ModuleReference| all.contains(reference) <==> nodes.contains(
            ChunkContentGraphNode::ExternalModuleReference(reference),
        ) by {
            let node = ChunkContentGraphNode::ExternalModuleReference(reference);
            if all.contains(reference) {
                let i = choose|i: int| 0 <= i < all.len() && all[i] == reference;
                if i < items.len() {
                    assert(items.contains(reference));
                    let k = choose|k: int| 0 <= k < before.len() && before[k] == node;
                    assert(nodes[k] == node);
                } else {
                    assert(nodes[nodes.len() - 1] == node);
                }
            }
            if nodes.contains(node) {
                let k = choose|k: int| 0 <= k < nodes.len() && nodes[k] == node;
                if k < before.len() {
                    assert(before[k] == node);
                    assert(items.contains(reference));
                    let i = choose|i: int| 0 <= i < items.len() && items[i] == reference;
                    assert(all[i] == reference);
                } else {
                    assert(all[items.len() as int] == reference);
                }
            }
        }
        if nodes.no_duplicates() {
            assert forall|i: int, j: int| 0 <= i < j < all.len() implies all[i] != all[j] by {
                if j == items.len() {
                    assert(items.contains(all[i]));
                    let node = ChunkContentGraphNode::ExternalModuleReference(all[i]);
                    let k = choose|k: int| 0 <= k < before.len() && before[k] == node;
                    assert(nodes[k] == node);
                }
            }
        }
    }
}

/// A list without duplicates whose elements all stand in another list is no
/// longer than that list.
pub proof fn lemma_distinct_items_fit(items: Seq<ChunkItem>, ledger: Seq<ChunkItem>)
    requires
        items.no_duplicates(),
        forall|item: ChunkItem| items.contains(item) ==> ledger.contains(item),
    ensures
        items.len() <= ledger.len(),
{
    items.unique_seq_to_set();
    ledger.lemma_cardinality_of_set();
    vstd::seq_lib::seq_to_set_is_finite(ledger);
    assert(items.to_set().subset_of(ledger.to_set()));
    vstd::set_lib::lemma_len_subset(items.to_set(), ledger.to_set());
}

/// No duplicates. Whatever the mode, the content of a chunk holds no chunk
/// item twice, no chunk twice and no external reference twice.
pub proof fn lemma_content_holds_nothing_twice(
    ctx: ChunkContentContext,
    entries: Seq<Module>,
    content: ChunkContent,
)
    requires
        chunk_content_spec(ctx, entries) == Ok::<Option<ChunkContent>, Module>(Some(content)),
    ensures
        content.chunk_items.no_duplicates(),
        content.chunks.no_duplicates(),
        content.external_module_references.no_duplicates(),
{
    let end = traverse_spec(
        ctx,
        initial_visit_state(),
        root_edges(ctx.graph, entries),
    )->Completed_0;
    let graph = RecordedGraph { roots: end.roots, nodes: end.nodes, successors: end.successors };
    lemma_reverse_topological_hands_out_once(graph);
    lemma_collected_chunk_items(reverse_topological_spec(graph));
    lemma_collected_chunks(reverse_topological_spec(graph));
    lemma_collected_external_module_references(reverse_topological_spec(graph));
}

/// The item of every chunk-item node that is handed out for a recorded
/// walk is in the ledger of the walk.
pub proof fn lemma_handed_out_items_in_ledger(
    graph: RecordedGraph,
    ledger: Seq<ChunkItem>,
    item: ChunkItem,
)
    requires
        items_in_ledger(graph.roots, ledger),
        forall|j: int|
            0 <= j < graph.successors.len() ==> items_in_ledger(
                #[trigger] graph.successors[j],
                ledger,
            ),
        reverse_topological_spec(graph).contains(ChunkContentGraphNode::ChunkItem { item }),
    ensures
        ledger.contains(item),
{
    let node = ChunkContentGraphNode::ChunkItem { item };
    lemma_reverse_topological_hands_out_once(graph);
    assert(is_recorded(graph, node));
    if graph.roots.contains(node) {
        let k = choose|k: int| 0 <= k < graph.roots.len() && graph.roots[k] == node;
        assert(items_in_ledger(graph.roots, ledger));
    } else {
        let j = choose|j: int|
            0 <= j < graph.successors.len() && (#[trigger] graph.successors[j]).contains(node);
        assert(items_in_ledger(graph.successors[j], ledger));
        let k = choose|k: int| 0 <= k < graph.successors[j].len() && graph.successors[j][k] == node;
    }
}

/// Bounded size. Content that is computed without splitting holds fewer
/// chunk items than the maximum.
pub proof fn lemma_content_is_bounded(
    ctx: ChunkContentContext,
    entries: Seq<Module>,
    content: ChunkContent,
)
    requires
        !ctx.split,
        chunk_content_spec(ctx, entries) == Ok::<Option<ChunkContent>, Module>(Some(content)),
    ensures
        content.chunk_items.len() < MAX_CHUNK_ITEMS_COUNT,
{
    let ledger = lemma_traverse_counts(ctx, entries);
    let end = traverse_spec(ctx, initial_visit_state(), root_edges(ctx.graph, entries))->Completed_0;
    let graph = RecordedGraph { roots: end.roots, nodes: end.nodes, successors: end.successors };
    let output = reverse_topological_spec(graph);
    lemma_reverse_topological_hands_out_once(graph);
    lemma_collected_chunk_items(output);
    assert forall|item: ChunkItem| content.chunk_items.contains(item) implies ledger.contains(
        item,
    ) by {
        lemma_handed_out_items_in_ledger(graph, ledger, item);
    }
    lemma_distinct_items_fit(content.chunk_items, ledger);
}

} // verus!
