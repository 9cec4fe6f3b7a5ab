//! What a chunk holds: exactly what the classified edges of the graph lead
//! to from the entries.

use vstd::prelude::*;

use crate::bound::lemma_collected_chunk_items;
use crate::bound::lemma_collected_chunks;
use crate::bound::lemma_collected_external_module_references;
use crate::classify::ChunkContentContext;
use crate::classify::ChunkContentGraphNode;
use crate::content::chunk_content_spec;
use crate::content::root_edge;
use crate::content::root_edges;
use crate::content::ChunkContent;
use crate::graph::Chunk;
use crate::graph::ChunkItem;
use crate::graph::Module;
use crate::graph::ModuleReference;
use crate::ledger::covered;
use crate::ledger::edge_nodes;
use crate::ledger::followed;
use crate::ledger::items_in_ledger;
use crate::ledger::lemma_traverse_counts;
use crate::ledger::modules_flagged;
use crate::ledger::stored_at;
use crate::ledger::stored_edges;
use crate::order::bookkeeping;
use crate::order::entered;
use crate::order::has_edge;
use crate::order::is_path;
use crate::order::is_recorded;
use crate::order::joined_at;
use crate::order::leads_to;
use crate::order::lemma_drop_keeps_bookkeeping;
use crate::order::lemma_drop_keeps_order;
use crate::order::lemma_enter_keeps_bookkeeping;
use crate::order::lemma_enter_keeps_order;
use crate::order::lemma_hand_out_keeps_bookkeeping;
use crate::order::lemma_hand_out_keeps_order;
use crate::order::lemma_leads_one_further;
use crate::order::lemma_leads_to_in_larger;
use crate::order::lemma_leads_to_itself;
use crate::order::lemma_leaf_keeps_bookkeeping;
use crate::order::lemma_push_in_order;
use crate::order::lemma_reverse_topological_hands_out_once;
use crate::order::ordered;
use crate::order::post_at;
use crate::order::pre_above;
use crate::order::recorded_edges;
use crate::placement::classified_edges;
use crate::placement::is_successor;
use crate::placement::lemma_recorded_edges_are_classified;
use crate::topological::lemma_slot_of;
use crate::topological::lemma_unvisited_insert;
use crate::topological::pre_reversed;
use crate::topological::reverse_topological_from;
use crate::topological::reverse_topological_spec;
use crate::topological::slot_of;
use crate::topological::successors_of;
use crate::topological::unvisited_slots;
use crate::topological::RecordedGraph;
use crate::topological::ReverseTopologicalPass;
use crate::topological::StackEntry;
use crate::traversal::traverse_spec;
use crate::traversal::Walk;
use crate::traversal::WalkOutcome;
use crate::visit::edges_spec;
use crate::visit::initial_visit_state;

verus! {

/// A path of recorded edges leads from one of the roots to the node.
pub open spec fn from_roots(graph: RecordedGraph, node: ChunkContentGraphNode) -> bool {
    exists|k: int|
        0 <= k < graph.roots.len() && leads_to(
            recorded_edges(graph),
            #[trigger] graph.roots[k],
            node,
        )
}

/// Every node on the stack and every node handed out is led to from a
/// root.
pub open spec fn all_from_roots(
    graph: RecordedGraph,
    stack: Seq<StackEntry>,
    output: Seq<ChunkContentGraphNode>,
) -> bool {
    &&& forall|s: int| 0 <= s < stack.len() ==> from_roots(graph, (#[trigger] stack[s]).1)
    &&& forall|n: ChunkContentGraphNode| output.contains(n) ==> from_roots(graph, n)
}

/// One more node that is led to from a root.
pub proof fn lemma_push_from_roots(
    graph: RecordedGraph,
    output: Seq<ChunkContentGraphNode>,
    node: ChunkContentGraphNode,
)
    requires
        forall|n: ChunkContentGraphNode| output.contains(n) ==> from_roots(graph, n),
        from_roots(graph, node),
    ensures
        forall|n: ChunkContentGraphNode| output.push(node).contains(n) ==> from_roots(graph, n),
{
    let next = output.push(node);
    assert forall|n: ChunkContentGraphNode| next.contains(n) implies from_roots(graph, n) by {
        let i = choose|i: int| 0 <= i < next.len() && next[i] == n;
        if i < output.len() {
            assert(output.contains(n));
        }
    }
}

/// Only nodes that are led to from a root are handed out.
pub proof fn lemma_order_stays_from_roots(
    graph: RecordedGraph,
    stack: Seq<StackEntry>,
    visited: Set<ChunkContentGraphNode>,
    output: Seq<ChunkContentGraphNode>,
)
    requires
        all_from_roots(graph, stack, output),
    ensures
        forall|n: ChunkContentGraphNode|
            reverse_topological_from(graph, stack, visited, output).contains(n) ==> from_roots(
                graph,
                n,
            ),
    decreases unvisited_slots(graph.nodes, visited), stack.len(),
{
    if stack.len() > 0 {
        let (pass, current) = stack.last();
        let rest = stack.drop_last();
        let top = stack.len() - 1;
        assert(from_roots(graph, stack[top].1));
        assert forall|s: int| 0 <= s < rest.len() implies from_roots(
            graph,
            (#[trigger] rest[s]).1,
        ) by {
            assert(rest[s] == stack[s]);
        }
        match pass {
            ReverseTopologicalPass::Post => {
                lemma_push_from_roots(graph, output, current);
                lemma_order_stays_from_roots(graph, rest, visited, output.push(current));
            },
            ReverseTopologicalPass::Pre => {
                if visited.contains(current) {
                    lemma_order_stays_from_roots(graph, rest, visited, output);
                } else {
                    lemma_unvisited_insert(graph.nodes, visited, current);
                    lemma_slot_of(graph.nodes, current);
                    match successors_of(graph, current) {
                        None => {
                            lemma_push_from_roots(graph, output, current);
                            lemma_order_stays_from_roots(
                                graph,
                                rest,
                                visited.insert(current),
                                output.push(current),
                            );
                        },
                        Some(neighbors) => {
                            let next = entered(stack, neighbors);
                            let k = choose|k: int|
                                0 <= k < graph.roots.len() && leads_to(
                                    recorded_edges(graph),
                                    #[trigger] graph.roots[k],
                                    current,
                                );
                            assert forall|s: int| 0 <= s < next.len() implies from_roots(
                                graph,
                                (#[trigger] next[s]).1,
                            ) by {
                                if s < top {
                                    assert(next[s] == stack[s]);
                                } else if s == top {
                                    assert(next[s].1 == current);
                                } else {
                                    let i = neighbors.len() - 1 - (s - top - 1);
                                    assert(next[s].1 == neighbors[i]);
                                    assert(neighbors.contains(neighbors[i]));
                                    assert(has_edge(graph, current, neighbors[i]));
                                    lemma_leads_one_further(
                                        recorded_edges(graph),
                                        graph.roots[k],
                                        current,
                                        neighbors[i],
                                    );
                                }
                            }
                            lemma_order_stays_from_roots(
                                graph,
                                next,
                                visited.insert(current),
                                output,
                            );
                        },
                    }
                }
            },
        }
    }
}

/// Every node that an edge of a node handed out led to was visited.
pub open spec fn closed_so_far(
    graph: RecordedGraph,
    output: Seq<ChunkContentGraphNode>,
    visited: Set<ChunkContentGraphNode>,
) -> bool {
    forall|p: int, to: ChunkContentGraphNode|
        0 <= p < output.len() && #[trigger] has_edge(graph, output[p], to) ==> visited.contains(
            to,
        )
}

/// Every node that an edge of a node of the list led to is in the list.
pub open spec fn closed(graph: RecordedGraph, output: Seq<ChunkContentGraphNode>) -> bool {
    forall|p: int, to: ChunkContentGraphNode|
        0 <= p < output.len() && #[trigger] has_edge(graph, output[p], to) ==> output.contains(to)
}

/// One more node handed out, all of whose successors were visited.
pub proof fn lemma_push_closed_so_far(
    graph: RecordedGraph,
    output: Seq<ChunkContentGraphNode>,
    visited: Set<ChunkContentGraphNode>,
    seen: Set<ChunkContentGraphNode>,
    node: ChunkContentGraphNode,
)
    requires
        closed_so_far(graph, output, visited),
        forall|n: ChunkContentGraphNode| visited.contains(n) ==> seen.contains(n),
        forall|to: ChunkContentGraphNode| #[trigger] has_edge(graph, node, to) ==> seen.contains(to),
    ensures
        closed_so_far(graph, output.push(node), seen),
{
    let next = output.push(node);
    assert forall|p: int, to: ChunkContentGraphNode|
        0 <= p < next.len() && #[trigger] has_edge(graph, next[p], to) implies seen.contains(
        to,
    ) by {
        if p < output.len() {
            assert(next[p] == output[p]);
            assert(has_edge(graph, output[p], to));
        }
    }
}

/// Nothing is lost: whatever was visited or stands on the stack is handed
/// out in the end, and with every node handed out the nodes that its edges
/// led to.
pub proof fn lemma_order_loses_nothing(
    graph: RecordedGraph,
    stack: Seq<StackEntry>,
    visited: Set<ChunkContentGraphNode>,
    output: Seq<ChunkContentGraphNode>,
)
    requires
        bookkeeping(stack, visited, output),
        ordered(graph, stack, visited, output),
        closed_so_far(graph, output, visited),
    ensures
        forall|n: ChunkContentGraphNode|
            visited.contains(n) ==> reverse_topological_from(
                graph,
                stack,
                visited,
                output,
            ).contains(n),
        forall|s: int|
            0 <= s < stack.len() ==> reverse_topological_from(
                graph,
                stack,
                visited,
                output,
            ).contains((#[trigger] stack[s]).1),
        closed(graph, reverse_topological_from(graph, stack, visited, output)),
    decreases unvisited_slots(graph.nodes, visited), stack.len(),
{
    let result = reverse_topological_from(graph, stack, visited, output);
    if stack.len() == 0 {
        assert forall|n: ChunkContentGraphNode| visited.contains(n) implies output.contains(n) by {
            if !output.contains(n) {
                let s = choose|s: int| #[trigger] post_at(stack, s) && stack[s].1 == n;
            }
        }
        assert forall|p: int, to: ChunkContentGraphNode|
            0 <= p < output.len() && #[trigger] has_edge(graph, output[p], to)
            implies output.contains(to) by {
            assert(visited.contains(to));
        }
    } else {
        let (pass, current) = stack.last();
        let rest = stack.drop_last();
        let top = stack.len() - 1;
        match pass {
            ReverseTopologicalPass::Post => {
                assert(post_at(stack, top));
                assert forall|to: ChunkContentGraphNode| #[trigger]
                    has_edge(graph, current, to) implies visited.contains(to) by {
                    assert(has_edge(graph, stack[top].1, to));
                    assert(visited.contains(to) || pre_above(stack, top, to));
                }
                lemma_push_closed_so_far(graph, output, visited, visited, current);
                lemma_hand_out_keeps_bookkeeping(stack, visited, output);
                lemma_hand_out_keeps_order(graph, stack, visited, output);
                lemma_order_loses_nothing(graph, rest, visited, output.push(current));
                assert forall|s: int| 0 <= s < stack.len() implies result.contains(
                    (#[trigger] stack[s]).1,
                ) by {
                    if s < top {
                        assert(rest[s] == stack[s]);
                    } else {
                        assert(visited.contains(current));
                    }
                }
            },
            ReverseTopologicalPass::Pre => {
                if visited.contains(current) {
                    lemma_drop_keeps_bookkeeping(stack, visited, output);
                    lemma_drop_keeps_order(graph, stack, visited, visited);
                    lemma_order_loses_nothing(graph, rest, visited, output);
                    assert forall|s: int| 0 <= s < stack.len() implies result.contains(
                        (#[trigger] stack[s]).1,
                    ) by {
                        if s < top {
                            assert(rest[s] == stack[s]);
                        }
                    }
                } else {
                    lemma_unvisited_insert(graph.nodes, visited, current);
                    lemma_slot_of(graph.nodes, current);
                    let seen = visited.insert(current);
                    match successors_of(graph, current) {
                        None => {
                            lemma_push_closed_so_far(graph, output, visited, seen, current);
                            lemma_leaf_keeps_bookkeeping(stack, visited, output);
                            lemma_drop_keeps_order(graph, stack, visited, seen);
                            lemma_push_in_order(graph, output, current);
                            lemma_order_loses_nothing(graph, rest, seen, output.push(current));
                            assert forall|n: ChunkContentGraphNode|
                                visited.contains(n) implies result.contains(n) by {
                                assert(seen.contains(n));
                            }
                            assert forall|s: int| 0 <= s < stack.len() implies result.contains(
                                (#[trigger] stack[s]).1,
                            ) by {
                                if s < top {
                                    assert(rest[s] == stack[s]);
                                } else {
                                    assert(seen.contains(current));
                                }
                            }
                        },
                        Some(neighbors) => {
                            let next = entered(stack, neighbors);
                            assert(closed_so_far(graph, output, seen));
                            lemma_enter_keeps_bookkeeping(stack, visited, output, neighbors);
                            lemma_enter_keeps_order(graph, stack, visited, neighbors);
                            lemma_order_loses_nothing(graph, next, seen, output);
                            assert forall|n: ChunkContentGraphNode|
                                visited.contains(n) implies result.contains(n) by {
                                assert(seen.contains(n));
                            }
                            assert forall|s: int| 0 <= s < stack.len() implies result.contains(
                                (#[trigger] stack[s]).1,
                            ) by {
                                if s < top {
                                    assert(next[s] == stack[s]);
                                } else {
                                    assert(seen.contains(current));
                                }
                            }
                        },
                    }
                }
            },
        }
    }
}

/// In a list that is closed, every node of a path that starts in the list
/// is in the list.
pub proof fn lemma_closed_holds_paths(
    graph: RecordedGraph,
    output: Seq<ChunkContentGraphNode>,
    path: Seq<ChunkContentGraphNode>,
    n: int,
)
    requires
        closed(graph, output),
        is_path(recorded_edges(graph), path),
        output.contains(path.first()),
        0 <= n < path.len(),
    ensures
        output.contains(path[n]),
    decreases n,
{
    if n > 0 {
        lemma_closed_holds_paths(graph, output, path, n - 1);
        let p = choose|p: int| 0 <= p < output.len() && output[p] == path[n - 1];
        assert(joined_at(recorded_edges(graph), path, n - 1));
        assert(has_edge(graph, output[p], path[n]));
    }
}

/// The reverse topological order of a recorded walk hands out the roots,
/// and with every node the nodes that its edges led to.
pub proof fn lemma_reverse_topological_is_closed(graph: RecordedGraph)
    ensures
        closed(graph, reverse_topological_spec(graph)),
        forall|k: int|
            0 <= k < graph.roots.len() ==> reverse_topological_spec(graph).contains(
                #[trigger] graph.roots[k],
            ),
{
    let stack = pre_reversed(graph.roots);
    let output = reverse_topological_spec(graph);
    assert(bookkeeping(stack, Set::empty(), Seq::empty()));
    assert(ordered(graph, stack, Set::empty(), Seq::empty()));
    lemma_order_loses_nothing(graph, stack, Set::empty(), Seq::empty());
    assert forall|k: int| 0 <= k < graph.roots.len() implies output.contains(
        #[trigger] graph.roots[k],
    ) by {
        let s = graph.roots.len() - 1 - k;
        assert(stack[s].1 == graph.roots[k]);
    }
}

/// What is handed out. The reverse topological order of a recorded walk
/// hands out exactly the nodes that the recorded edges lead to from the
/// roots.
pub proof fn lemma_reverse_topological_hands_out_what_is_reached(
    graph: RecordedGraph,
    node: ChunkContentGraphNode,
)
    ensures
        reverse_topological_spec(graph).contains(node) <==> from_roots(graph, node),
{
    let stack = pre_reversed(graph.roots);
    let output = reverse_topological_spec(graph);
    assert forall|s: int| 0 <= s < stack.len() implies from_roots(graph, (#[trigger] stack[s]).1) by {
        let k = graph.roots.len() - 1 - s;
        lemma_leads_to_itself(recorded_edges(graph), graph.roots[k]);
    }
    lemma_order_stays_from_roots(graph, stack, Set::empty(), Seq::empty());
    lemma_reverse_topological_is_closed(graph);
    if from_roots(graph, node) {
        let k = choose|k: int|
            0 <= k < graph.roots.len() && leads_to(
                recorded_edges(graph),
                #[trigger] graph.roots[k],
                node,
            );
        let path = choose|path: Seq<ChunkContentGraphNode>| #[trigger]
            is_path(recorded_edges(graph), path) && path.first() == graph.roots[k] && path.last()
                == node;
        lemma_closed_holds_paths(graph, output, path, path.len() - 1);
    }
}

/// A path of classified edges leads from the node of one of the entries to
/// the node.
pub open spec fn is_reached(
    ctx: ChunkContentContext,
    entries: Seq<Module>,
    node: ChunkContentGraphNode,
) -> bool {
    exists|k: int|
        0 <= k < entries.len() && leads_to(
            classified_edges(ctx),
            root_edge(ctx.graph, #[trigger] entries[k]).1,
            node,
        )
}

/// At the end of a walk, every classified edge of a recorded node is a
/// recorded edge.
pub proof fn lemma_classified_edges_are_recorded(
    ctx: ChunkContentContext,
    end: Walk,
    ledger: Seq<ChunkItem>,
    from: ChunkContentGraphNode,
    to: ChunkContentGraphNode,
)
    requires
        covered(ctx, end, Seq::empty(), ledger),
        followed(ctx, end, Seq::empty()),
        stored_edges(ctx, end),
        end.successors.len() == end.nodes.len(),
        is_recorded(
            (RecordedGraph { roots: end.roots, nodes: end.nodes, successors: end.successors }),
            from,
        ),
        is_successor(ctx, from, to),
    ensures
        has_edge(
            (RecordedGraph { roots: end.roots, nodes: end.nodes, successors: end.successors }),
            from,
            to,
        ),
{
    let graph = RecordedGraph { roots: end.roots, nodes: end.nodes, successors: end.successors };
    let edges = edges_spec(ctx, from)->Ok_0;
    assert(edge_nodes(edges).len() > 0);
    // The list in which the node is recorded.
    let list = if graph.roots.contains(from) {
        graph.roots
    } else {
        let j = choose|j: int|
            0 <= j < graph.successors.len() && (#[trigger] graph.successors[j]).contains(from);
        graph.successors[j]
    };
    assert(list.contains(from));
    assert(items_in_ledger(list, ledger));
    assert(modules_flagged(end.scheduled_modules, list));
    let k = choose|k: int| 0 <= k < list.len() && list[k] == from;
    match from {
        ChunkContentGraphNode::ChunkItem { item } => {
            if item.0 >= ctx.graph.chunk_items@.len() {
                assert(edges =~= Seq::empty());
            }
            assert(ledger.contains(item));
            assert(end.scheduled_items[item.0 as int]);
        },
        ChunkContentGraphNode::PassthroughModule { asset } => {
            if asset.0 >= ctx.graph.modules@.len() {
                assert(edges =~= Seq::empty());
            }
            assert(end.scheduled_modules[asset.0 as int]);
        },
        _ => {
            assert(edges =~= Seq::empty());
        },
    }
    assert(end.nodes.contains(from));
    lemma_slot_of(end.nodes, from);
    let slot = slot_of(end.nodes, from)->0;
    assert(stored_at(ctx, end, slot));
}

/// At the end of a walk, every node of a path of classified edges that
/// starts at a node handed out is handed out.
pub proof fn lemma_handed_out_holds_classified_paths(
    ctx: ChunkContentContext,
    end: Walk,
    ledger: Seq<ChunkItem>,
    path: Seq<ChunkContentGraphNode>,
    n: int,
)
    requires
        covered(ctx, end, Seq::empty(), ledger),
        followed(ctx, end, Seq::empty()),
        stored_edges(ctx, end),
        end.successors.len() == end.nodes.len(),
        is_path(classified_edges(ctx), path),
        reverse_topological_spec(
            (RecordedGraph { roots: end.roots, nodes: end.nodes, successors: end.successors }),
        ).contains(path.first()),
        0 <= n < path.len(),
    ensures
        reverse_topological_spec(
            (RecordedGraph { roots: end.roots, nodes: end.nodes, successors: end.successors }),
        ).contains(path[n]),
    decreases n,
{
    if n > 0 {
        let graph = RecordedGraph {
            roots: end.roots,
            nodes: end.nodes,
            successors: end.successors,
        };
        let output = reverse_topological_spec(graph);
        lemma_handed_out_holds_classified_paths(ctx, end, ledger, path, n - 1);
        lemma_reverse_topological_hands_out_once(graph);
        lemma_reverse_topological_is_closed(graph);
        assert(joined_at(classified_edges(ctx), path, n - 1));
        lemma_classified_edges_are_recorded(ctx, end, ledger, path[n - 1], path[n]);
        let p = choose|p: int| 0 <= p < output.len() && output[p] == path[n - 1];
        assert(has_edge(graph, output[p], path[n]));
    }
}

/// The nodes handed out for a whole walk are exactly the nodes that the
/// classified edges lead to from the nodes of the entries.
pub proof fn lemma_handed_out_is_what_is_reached(
    ctx: ChunkContentContext,
    entries: Seq<Module>,
    end: Walk,
    node: ChunkContentGraphNode,
)
    requires
        traverse_spec(ctx, initial_visit_state(), root_edges(ctx.graph, entries))
            == WalkOutcome::Completed(end),
    ensures
        reverse_topological_spec(
            (RecordedGraph { roots: end.roots, nodes: end.nodes, successors: end.successors }),
        ).contains(node) <==> is_reached(ctx, entries, node),
{
    let graph = RecordedGraph { roots: end.roots, nodes: end.nodes, successors: end.successors };
    let output = reverse_topological_spec(graph);
    let ledger = lemma_traverse_counts(ctx, entries);
    lemma_reverse_topological_hands_out_what_is_reached(graph, node);
    lemma_reverse_topological_is_closed(graph);
    assert(graph.roots.len() == entries.len());
    assert forall|k: int| 0 <= k < entries.len() implies graph.roots[k] == root_edge(
        ctx.graph,
        #[trigger] entries[k],
    ).1 by {}
    if output.contains(node) {
        let k = choose|k: int|
            0 <= k < graph.roots.len() && leads_to(
                recorded_edges(graph),
                #[trigger] graph.roots[k],
                node,
            );
        assert forall|a: ChunkContentGraphNode, b: ChunkContentGraphNode| #[trigger]
            recorded_edges(graph)(a, b) implies classified_edges(ctx)(a, b) by {
            lemma_recorded_edges_are_classified(ctx, end, a, b);
        }
        lemma_leads_to_in_larger(
            recorded_edges(graph),
            classified_edges(ctx),
            graph.roots[k],
            node,
        );
        assert(graph.roots[k] == root_edge(ctx.graph, entries[k]).1);
    }
    if is_reached(ctx, entries, node) {
        let k = choose|k: int|
            0 <= k < entries.len() && leads_to(
                classified_edges(ctx),
                root_edge(ctx.graph, #[trigger] entries[k]).1,
                node,
            );
        let path = choose|path: Seq<ChunkContentGraphNode>| #[trigger]
            is_path(classified_edges(ctx), path) && path.first() == root_edge(
                ctx.graph,
                entries[k],
            ).1 && path.last() == node;
        assert(output.contains(graph.roots[k]));
        lemma_handed_out_holds_classified_paths(ctx, end, ledger, path, path.len() - 1);
    }
}

/// The content holds exactly the chunk items, the chunks and the external
/// references whose nodes the classified edges lead to from the items of
/// the entries.
pub open spec fn holds_what_is_reached(
    ctx: ChunkContentContext,
    entries: Seq<Module>,
    content: ChunkContent,
) -> bool {
    &&& forall|item: ChunkItem|
        content.chunk_items.contains(item) <==> is_reached(
            ctx,
            entries,
            ChunkContentGraphNode::ChunkItem { item },
        )
    &&& forall|chunk: Chunk|
        content.chunks.contains(chunk) <==> is_reached(
            ctx,
            entries,
            ChunkContentGraphNode::Chunk(chunk),
        )
    &&& forall|reference: ModuleReference|
        content.external_module_references.contains(reference) <==> is_reached(
            ctx,
            entries,
            ChunkContentGraphNode::ExternalModuleReference(reference),
        )
}

/// What a chunk holds. The content of a chunk holds exactly what the
/// classified edges lead to from the items of the entries.
pub proof fn lemma_content_is_what_is_reached(
    ctx: ChunkContentContext,
    entries: Seq<Module>,
    content: ChunkContent,
)
    requires
        chunk_content_spec(ctx, entries) == Ok::<Option<ChunkContent>, Module>(Some(content)),
    ensures
        holds_what_is_reached(ctx, entries, content),
{
    let end = traverse_spec(ctx, initial_visit_state(), root_edges(ctx.graph, entries))->Completed_0;
    let graph = RecordedGraph { roots: end.roots, nodes: end.nodes, successors: end.successors };
    let output = reverse_topological_spec(graph);
    lemma_collected_chunk_items(output);
    lemma_collected_chunks(output);
    lemma_collected_external_module_references(output);
    assert forall|item: ChunkItem|
        content.chunk_items.contains(item) <==> is_reached(
            ctx,
            entries,
            ChunkContentGraphNode::ChunkItem { item },
        ) by {
        lemma_handed_out_is_what_is_reached(
            ctx,
            entries,
            end,
            ChunkContentGraphNode::ChunkItem { item },
        );
    }
    assert forall|chunk: Chunk|
        content.chunks.contains(chunk) <==> is_reached(
            ctx,
            entries,
            ChunkContentGraphNode::Chunk(chunk),
        ) by {
        lemma_handed_out_is_what_is_reached(ctx, entries, end, ChunkContentGraphNode::Chunk(chunk));
    }
    assert forall|reference: ModuleReference|
        content.external_module_references.contains(reference) <==> is_reached(
            ctx,
            entries,
            ChunkContentGraphNode::ExternalModuleReference(reference),
        ) by {
        lemma_handed_out_is_what_is_reached(
            ctx,
            entries,
            end,
            ChunkContentGraphNode::ExternalModuleReference(reference),
        );
    }
}

} // verus!
