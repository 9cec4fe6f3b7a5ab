//! The order of the chunk items of a chunk: an item is placed behind the
//! items that its references place.

use vstd::prelude::*;

use crate::bound::lemma_collected_chunk_items;
use crate::bound::lemma_handed_out_items_in_ledger;
use crate::classify::ChunkContentContext;
use crate::classify::ChunkContentGraphNode;
use crate::content::chunk_content_spec;
use crate::content::collect_chunk_items;
use crate::content::root_edges;
use crate::content::ChunkContent;
use crate::graph::ChunkItem;
use crate::graph::Module;
use crate::ledger::edge_nodes;
use crate::ledger::lemma_traverse_counts;
use crate::ledger::stored_at;
use crate::order::comes_before;
use crate::order::has_edge;
use crate::order::leads_to;
use crate::order::lemma_leads_to_in_larger;
use crate::order::lemma_reverse_topological_is_in_order;
use crate::order::recorded_edges;
use crate::topological::lemma_slot_of;
use crate::topological::reverse_topological_spec;
use crate::topological::slot_of;
use crate::topological::RecordedGraph;
use crate::traversal::traverse_spec;
use crate::traversal::Walk;
use crate::visit::edges_spec;
use crate::visit::initial_visit_state;

verus! {

/// One of the edges of `from` has the node `to`.
pub open spec fn is_successor(
    ctx: ChunkContentContext,
    from: ChunkContentGraphNode,
    to: ChunkContentGraphNode,
) -> bool {
    edges_spec(ctx, from) matches Ok(edges) && edge_nodes(edges).contains(to)
}

/// The classified edges of the graph, as a relation between nodes.
pub open spec fn classified_edges(ctx: ChunkContentContext) -> spec_fn(
    ChunkContentGraphNode,
    ChunkContentGraphNode,
) -> bool {
    |from: ChunkContentGraphNode, to: ChunkContentGraphNode| is_successor(ctx, from, to)
}

/// The chunk items collected from the first nodes of a list stand at the
/// front of those collected from the whole list.
pub proof fn lemma_collected_from_front(nodes: Seq<ChunkContentGraphNode>, n: int)
    requires
        0 <= n <= nodes.len(),
    ensures
        collect_chunk_items(nodes.take(n)).is_prefix_of(collect_chunk_items(nodes)),
    decreases nodes.len() - n,
{
    if n == nodes.len() {
        assert(nodes.take(n) =~= nodes);
    } else {
        assert(nodes.take(n + 1).drop_last() =~= nodes.take(n));
        lemma_collected_from_front(nodes, n + 1);
        let shorter = collect_chunk_items(nodes.take(n));
        let longer = collect_chunk_items(nodes.take(n + 1));
        let all = collect_chunk_items(nodes);
        assert(shorter =~= longer.subrange(0, shorter.len() as int));
        assert(longer =~= all.subrange(0, longer.len() as int));
        assert(shorter =~= all.subrange(0, shorter.len() as int));
    }
}

/// Two chunk-item nodes of a list keep their order among the chunk items
/// collected from it.
pub proof fn lemma_collected_in_order(
    nodes: Seq<ChunkContentGraphNode>,
    q: int,
    p: int,
    first: ChunkItem,
    second: ChunkItem,
)
    requires
        0 <= q < p < nodes.len(),
        nodes[q] == (ChunkContentGraphNode::ChunkItem { item: first }),
        nodes[p] == (ChunkContentGraphNode::ChunkItem { item: second }),
    ensures
        exists|i: int, j: int|
            0 <= i < j < collect_chunk_items(nodes).len() && collect_chunk_items(nodes)[i] == first
                && collect_chunk_items(nodes)[j] == second,
{
    let all = collect_chunk_items(nodes);
    let i = collect_chunk_items(nodes.take(q)).len() as int;
    let j = collect_chunk_items(nodes.take(p)).len() as int;
    assert(nodes.take(q + 1).drop_last() =~= nodes.take(q));
    assert(nodes.take(p + 1).drop_last() =~= nodes.take(p));
    let upto_q = collect_chunk_items(nodes.take(q + 1));
    let upto_p = collect_chunk_items(nodes.take(p + 1));
    assert(upto_q[i] == first);
    assert(upto_p[j] == second);
    lemma_collected_from_front(nodes, q + 1);
    lemma_collected_from_front(nodes, p + 1);
    assert(upto_q =~= all.subrange(0, upto_q.len() as int));
    assert(upto_p =~= all.subrange(0, upto_p.len() as int));
    assert(all.subrange(0, upto_q.len() as int)[i] == all[i]);
    assert(all.subrange(0, upto_p.len() as int)[j] == all[j]);
    assert(nodes.take(p).take(q + 1) =~= nodes.take(q + 1));
    lemma_collected_from_front(nodes.take(p), q + 1);
    assert(i < j);
    assert(0 <= i < j < all.len() && all[i] == first && all[j] == second);
}

/// Every edge of the recorded walk is a classified edge of the graph.
pub proof fn lemma_recorded_edges_are_classified(
    ctx: ChunkContentContext,
    end: Walk,
    from: ChunkContentGraphNode,
    to: ChunkContentGraphNode,
)
    requires
        crate::ledger::stored_edges(ctx, end),
        has_edge(
            (RecordedGraph { roots: end.roots, nodes: end.nodes, successors: end.successors }),
            from,
            to,
        ),
    ensures
        is_successor(ctx, from, to),
{
    lemma_slot_of(end.nodes, from);
    let slot = slot_of(end.nodes, from)->0;
    assert(stored_at(ctx, end, slot));
}

/// Topological order. Where an edge of the placed item `x` places the item
/// `y`, and no path of edges leads from `y` back to `x`, the content lists
/// `y` before `x`.
pub proof fn lemma_placed_items_are_in_order(
    ctx: ChunkContentContext,
    entries: Seq<Module>,
    content: ChunkContent,
    x: ChunkItem,
    y: ChunkItem,
)
    requires
        chunk_content_spec(ctx, entries) == Ok::<Option<ChunkContent>, Module>(Some(content)),
        content.chunk_items.contains(x),
        is_successor(
            ctx,
            (ChunkContentGraphNode::ChunkItem { item: x }),
            (ChunkContentGraphNode::ChunkItem { item: y }),
        ),
        !leads_to(
            classified_edges(ctx),
            (ChunkContentGraphNode::ChunkItem { item: y }),
            (ChunkContentGraphNode::ChunkItem { item: x }),
        ),
    ensures
        exists|i: int, j: int|
            0 <= i < j < content.chunk_items.len() && content.chunk_items[i] == y
                && content.chunk_items[j] == x,
{
    let from = ChunkContentGraphNode::ChunkItem { item: x };
    let to = ChunkContentGraphNode::ChunkItem { item: y };
    let ledger = lemma_traverse_counts(ctx, entries);
    let end = traverse_spec(ctx, initial_visit_state(), root_edges(ctx.graph, entries))->Completed_0;
    let graph = RecordedGraph { roots: end.roots, nodes: end.nodes, successors: end.successors };
    let output = reverse_topological_spec(graph);
    lemma_collected_chunk_items(output);
    assert(output.contains(from));
    let p = choose|p: int| 0 <= p < output.len() && output[p] == from;
    lemma_handed_out_items_in_ledger(graph, ledger, x);
    // The item has edges, so the graph knows it, and its edges were followed.
    assert(x.0 < ctx.graph.chunk_items@.len()) by {
        if x.0 >= ctx.graph.chunk_items@.len() {
            let edges = edges_spec(ctx, from)->Ok_0;
            assert(edges =~= Seq::empty());
            assert(edge_nodes(edges) =~= Seq::empty());
        }
    }
    assert(end.scheduled_items[x.0 as int]);
    assert(end.nodes.contains(from));
    lemma_slot_of(end.nodes, from);
    let slot = slot_of(end.nodes, from)->0;
    assert(stored_at(ctx, end, slot));
    assert(has_edge(graph, output[p], to));
    lemma_reverse_topological_is_in_order(graph);
    assert(comes_before(output, to, p) || leads_to(recorded_edges(graph), to, output[p]));
    if leads_to(recorded_edges(graph), to, from) {
        assert forall|a: ChunkContentGraphNode, b: ChunkContentGraphNode| #[trigger]
            recorded_edges(graph)(a, b) implies classified_edges(ctx)(a, b) by {
            lemma_recorded_edges_are_classified(ctx, end, a, b);
        }
        lemma_leads_to_in_larger(recorded_edges(graph), classified_edges(ctx), to, from);
    }
    let q = choose|q: int| 0 <= q < p && #[trigger] output[q] == to;
    lemma_collected_in_order(output, q, p, y, x);
}

} // verus!
