//! What holds of the reverse topological order of a recorded walk: every
//! node is handed out once, only recorded nodes are handed out, and a node
//! comes after the nodes that its edges led to.

use vstd::prelude::*;

use crate::classify::ChunkContentGraphNode;
use crate::topological::lemma_slot_of;
use crate::topological::lemma_unvisited_insert;
use crate::topological::pre_reversed;
use crate::topological::reverse_topological_from;
use crate::topological::reverse_topological_spec;
use crate::topological::successors_of;
use crate::topological::unvisited_slots;
use crate::topological::RecordedGraph;
use crate::topological::ReverseTopologicalPass;
use crate::topological::StackEntry;

verus! {

/// The node is one of the roots or one of the recorded successors.
pub open spec fn is_recorded(graph: RecordedGraph, node: ChunkContentGraphNode) -> bool {
    graph.roots.contains(node) || exists|j: int|
        0 <= j < graph.successors.len() && (#[trigger] graph.successors[j]).contains(node)
}

/// The entry at position `s` of the stack is a node to be handed out.
pub open spec fn post_at(stack: Seq<StackEntry>, s: int) -> bool {
    0 <= s < stack.len() && stack[s].0 == ReverseTopologicalPass::Post
}

/// How the stack, the visited nodes and the nodes handed out so far belong
/// together: nothing is handed out twice; what is handed out was visited;
/// a node waiting to be handed out was visited, is not handed out yet and
/// waits only once; and every visited node is handed out or waits for it.
pub open spec fn bookkeeping(
    stack: Seq<StackEntry>,
    visited: Set<ChunkContentGraphNode>,
    output: Seq<ChunkContentGraphNode>,
) -> bool {
    &&& output.no_duplicates()
    &&& forall|n: ChunkContentGraphNode| output.contains(n) ==> visited.contains(n)
    &&& forall|s: int| #[trigger]
        post_at(stack, s) ==> visited.contains(stack[s].1) && !output.contains(stack[s].1)
    &&& forall|s: int, t: int|
        s < t && #[trigger] post_at(stack, s) && #[trigger] post_at(stack, t) ==> stack[s].1
            != stack[t].1
    &&& forall|n: ChunkContentGraphNode|
        visited.contains(n) ==> output.contains(n) || exists|s: int| #[trigger]
            post_at(stack, s) && stack[s].1 == n
}

/// Every node on the stack and every node handed out is a recorded node.
pub open spec fn all_recorded(
    graph: RecordedGraph,
    stack: Seq<StackEntry>,
    output: Seq<ChunkContentGraphNode>,
) -> bool {
    &&& forall|s: int| 0 <= s < stack.len() ==> is_recorded(graph, (#[trigger] stack[s]).1)
    &&& forall|n: ChunkContentGraphNode| output.contains(n) ==> is_recorded(graph, n)
}

/// Handing out the node on top of the stack keeps the bookkeeping.
pub proof fn lemma_hand_out_keeps_bookkeeping(
    stack: Seq<StackEntry>,
    visited: Set<ChunkContentGraphNode>,
    output: Seq<ChunkContentGraphNode>,
)
    requires
        bookkeeping(stack, visited, output),
        stack.len() > 0,
        stack.last().0 == ReverseTopologicalPass::Post,
    ensures
        bookkeeping(stack.drop_last(), visited, output.push(stack.last().1)),
{
    let rest = stack.drop_last();
    let current = stack.last().1;
    let top = stack.len() - 1;
    let next = output.push(current);
    assert(post_at(stack, top));
    assert forall|i: int, j: int| 0 <= i < j < next.len() implies next[i] != next[j] by {
        if j == output.len() {
            assert(output.contains(next[i]));
        }
    }
    assert forall|n: ChunkContentGraphNode| next.contains(n) implies visited.contains(n) by {
        let i = choose|i: int| 0 <= i < next.len() && next[i] == n;
        if i < output.len() {
            assert(output.contains(n));
        }
    }
    assert forall|s: int| #[trigger] post_at(rest, s) implies visited.contains(rest[s].1)
        && !next.contains(rest[s].1) by {
        assert(post_at(stack, s));
        if next.contains(rest[s].1) {
            let i = choose|i: int| 0 <= i < next.len() && next[i] == rest[s].1;
            if i < output.len() {
                assert(output.contains(rest[s].1));
            }
        }
    }
    assert forall|s: int, t: int|
        s < t && #[trigger] post_at(rest, s) && #[trigger] post_at(rest, t) implies rest[s].1
        != rest[t].1 by {
        assert(post_at(stack, s) && post_at(stack, t));
    }
    assert forall|n: ChunkContentGraphNode| visited.contains(n) implies next.contains(n)
        || exists|s: int| #[trigger] post_at(rest, s) && rest[s].1 == n by {
        if output.contains(n) {
            let i = choose|i: int| 0 <= i < output.len() && output[i] == n;
            assert(next[i] == n);
        } else {
            let s = choose|s: int| #[trigger] post_at(stack, s) && stack[s].1 == n;
            if s == top {
                assert(next[output.len() as int] == n);
            } else {
                assert(post_at(rest, s) && rest[s].1 == n);
            }
        }
    }
}

/// Dropping an entry for a visited node from the top of the stack keeps the
/// bookkeeping.
pub proof fn lemma_drop_keeps_bookkeeping(
    stack: Seq<StackEntry>,
    visited: Set<ChunkContentGraphNode>,
    output: Seq<ChunkContentGraphNode>,
)
    requires
        bookkeeping(stack, visited, output),
        stack.len() > 0,
        stack.last().0 == ReverseTopologicalPass::Pre,
    ensures
        bookkeeping(stack.drop_last(), visited, output),
{
    let rest = stack.drop_last();
    assert forall|s: int| #[trigger] post_at(rest, s) implies visited.contains(rest[s].1)
        && !output.contains(rest[s].1) by {
        assert(post_at(stack, s));
    }
    assert forall|s: int, t: int|
        s < t && #[trigger] post_at(rest, s) && #[trigger] post_at(rest, t) implies rest[s].1
        != rest[t].1 by {
        assert(post_at(stack, s) && post_at(stack, t));
    }
    assert forall|n: ChunkContentGraphNode| visited.contains(n) implies output.contains(n)
        || exists|s: int| #[trigger] post_at(rest, s) && rest[s].1 == n by {
        if !output.contains(n) {
            let s = choose|s: int| #[trigger] post_at(stack, s) && stack[s].1 == n;
            assert(post_at(rest, s) && rest[s].1 == n);
        }
    }
}

/// Visiting a node without recorded successors and handing it out at once
/// keeps the bookkeeping.
pub proof fn lemma_leaf_keeps_bookkeeping(
    stack: Seq<StackEntry>,
    visited: Set<ChunkContentGraphNode>,
    output: Seq<ChunkContentGraphNode>,
)
    requires
        bookkeeping(stack, visited, output),
        stack.len() > 0,
        stack.last().0 == ReverseTopologicalPass::Pre,
        !visited.contains(stack.last().1),
    ensures
        bookkeeping(
            stack.drop_last(),
            visited.insert(stack.last().1),
            output.push(stack.last().1),
        ),
{
    let rest = stack.drop_last();
    let current = stack.last().1;
    let next = output.push(current);
    let seen = visited.insert(current);
    assert forall|i: int, j: int| 0 <= i < j < next.len() implies next[i] != next[j] by {
        if j == output.len() {
            assert(output.contains(next[i]));
        }
    }
    assert forall|n: ChunkContentGraphNode| next.contains(n) implies seen.contains(n) by {
        let i = choose|i: int| 0 <= i < next.len() && next[i] == n;
        if i < output.len() {
            assert(output.contains(n));
        }
    }
    assert forall|s: int| #[trigger] post_at(rest, s) implies seen.contains(rest[s].1)
        && !next.contains(rest[s].1) by {
        assert(post_at(stack, s));
        if next.contains(rest[s].1) {
            let i = choose|i: int| 0 <= i < next.len() && next[i] == rest[s].1;
            if i < output.len() {
                assert(output.contains(rest[s].1));
            }
        }
    }
    assert forall|s: int, t: int|
        s < t && #[trigger] post_at(rest, s) && #[trigger] post_at(rest, t) implies rest[s].1
        != rest[t].1 by {
        assert(post_at(stack, s) && post_at(stack, t));
    }
    assert forall|n: ChunkContentGraphNode| seen.contains(n) implies next.contains(n)
        || exists|s: int| #[trigger] post_at(rest, s) && rest[s].1 == n by {
        if n == current {
            assert(next[output.len() as int] == n);
        } else if output.contains(n) {
            let i = choose|i: int| 0 <= i < output.len() && output[i] == n;
            assert(next[i] == n);
        } else {
            let s = choose|s: int| #[trigger] post_at(stack, s) && stack[s].1 == n;
            assert(post_at(rest, s) && rest[s].1 == n);
        }
    }
}

/// The stack after a node was entered: the node waits to be handed out,
/// below the entries that enter its successors.
pub open spec fn entered(stack: Seq<StackEntry>, neighbors: Seq<ChunkContentGraphNode>) -> Seq<
    StackEntry,
> {
    stack.drop_last().push((ReverseTopologicalPass::Post, stack.last().1)) + pre_reversed(
        neighbors,
    )
}

/// Entering a node keeps the bookkeeping.
pub proof fn lemma_enter_keeps_bookkeeping(
    stack: Seq<StackEntry>,
    visited: Set<ChunkContentGraphNode>,
    output: Seq<ChunkContentGraphNode>,
    neighbors: Seq<ChunkContentGraphNode>,
)
    requires
        bookkeeping(stack, visited, output),
        stack.len() > 0,
        stack.last().0 == ReverseTopologicalPass::Pre,
        !visited.contains(stack.last().1),
    ensures
        bookkeeping(entered(stack, neighbors), visited.insert(stack.last().1), output),
{
    let current = stack.last().1;
    let top = stack.len() - 1;
    let next = entered(stack, neighbors);
    let seen = visited.insert(current);
    assert forall|s: int| post_at(next, s) implies s <= top && (s < top ==> post_at(stack, s)
        && stack[s] == next[s]) && (s == top ==> next[s].1 == current) by {}
    assert forall|s: int| #[trigger] post_at(next, s) implies seen.contains(next[s].1)
        && !output.contains(next[s].1) by {
        if s < top {
            assert(post_at(stack, s));
        }
    }
    assert forall|s: int, t: int|
        s < t && #[trigger] post_at(next, s) && #[trigger] post_at(next, t) implies next[s].1
        != next[t].1 by {
        assert(post_at(stack, s));
        if t < top {
            assert(post_at(stack, t));
        }
    }
    assert forall|n: ChunkContentGraphNode| seen.contains(n) implies output.contains(n)
        || exists|s: int| #[trigger] post_at(next, s) && next[s].1 == n by {
        if n == current {
            assert(post_at(next, top) && next[top].1 == n);
        } else if !output.contains(n) {
            let s = choose|s: int| #[trigger] post_at(stack, s) && stack[s].1 == n;
            assert(post_at(next, s) && next[s].1 == n);
        }
    }
}

/// Whatever is handed out from a state that keeps the bookkeeping and holds
/// recorded nodes only: no node twice, and recorded nodes only.
pub proof fn lemma_order_hands_out_once(
    graph: RecordedGraph,
    stack: Seq<StackEntry>,
    visited: Set<ChunkContentGraphNode>,
    output: Seq<ChunkContentGraphNode>,
)
    requires
        bookkeeping(stack, visited, output),
        all_recorded(graph, stack, output),
    ensures
        reverse_topological_from(graph, stack, visited, output).no_duplicates(),
        forall|n: ChunkContentGraphNode|
            reverse_topological_from(graph, stack, visited, output).contains(n)
                ==> is_recorded(graph, n),
    decreases unvisited_slots(graph.nodes, visited), stack.len(),
{
    if stack.len() > 0 {
        let (pass, current) = stack.last();
        let rest = stack.drop_last();
        assert(is_recorded(graph, stack[stack.len() - 1].1));
        assert forall|s: int| 0 <= s < rest.len() implies is_recorded(
            graph,
            (#[trigger] rest[s]).1,
        ) by {
            assert(rest[s] == stack[s]);
        }
        match pass {
            ReverseTopologicalPass::Post => {
                lemma_hand_out_keeps_bookkeeping(stack, visited, output);
                lemma_push_recorded(graph, output, current);
                lemma_order_hands_out_once(graph, rest, visited, output.push(current));
            },
            ReverseTopologicalPass::Pre => {
                if visited.contains(current) {
                    lemma_drop_keeps_bookkeeping(stack, visited, output);
                    lemma_order_hands_out_once(graph, rest, visited, output);
                } else {
                    lemma_unvisited_insert(graph.nodes, visited, current);
                    lemma_slot_of(graph.nodes, current);
                    match successors_of(graph, current) {
                        None => {
                            lemma_leaf_keeps_bookkeeping(stack, visited, output);
                            lemma_push_recorded(graph, output, current);
                            lemma_order_hands_out_once(
                                graph,
                                rest,
                                visited.insert(current),
                                output.push(current),
                            );
                        },
                        Some(neighbors) => {
                            lemma_enter_keeps_bookkeeping(stack, visited, output, neighbors);
                            lemma_entered_recorded(graph, stack, neighbors);
                            lemma_order_hands_out_once(
                                graph,
                                entered(stack, neighbors),
                                visited.insert(current),
                                output,
                            );
                        },
                    }
                }
            },
        }
    }
}

/// A list of recorded nodes with one more recorded node is a list of
/// recorded nodes.
pub proof fn lemma_push_recorded(
    graph: RecordedGraph,
    output: Seq<ChunkContentGraphNode>,
    node: ChunkContentGraphNode,
)
    requires
        forall|n: ChunkContentGraphNode| output.contains(n) ==> is_recorded(graph, n),
        is_recorded(graph, node),
    ensures
        forall|n: ChunkContentGraphNode| output.push(node).contains(n) ==> is_recorded(graph, n),
{
    let next = output.push(node);
    assert forall|n: ChunkContentGraphNode| next.contains(n) implies is_recorded(graph, n) by {
        let i = choose|i: int| 0 <= i < next.len() && next[i] == n;
        if i < output.len() {
            assert(output.contains(n));
        }
    }
}

/// The stack after a node with recorded successors was entered holds
/// recorded nodes only.
pub proof fn lemma_entered_recorded(
    graph: RecordedGraph,
    stack: Seq<StackEntry>,
    neighbors: Seq<ChunkContentGraphNode>,
)
    requires
        stack.len() > 0,
        forall|s: int| 0 <= s < stack.len() ==> is_recorded(graph, (#[trigger] stack[s]).1),
        successors_of(graph, stack.last().1) == Some(neighbors),
    ensures
        forall|s: int|
            0 <= s < entered(stack, neighbors).len() ==> is_recorded(
                graph,
                (#[trigger] entered(stack, neighbors)[s]).1,
            ),
{
    let next = entered(stack, neighbors);
    let top = stack.len() - 1;
    lemma_slot_of(graph.nodes, stack.last().1);
    let slot = crate::topological::slot_of(graph.nodes, stack.last().1)->0;
    assert forall|s: int| 0 <= s < next.len() implies is_recorded(graph, (#[trigger] next[s]).1) by {
        if s < top {
            assert(next[s] == stack[s]);
        } else if s == top {
            assert(next[s].1 == stack[top].1);
        } else {
            let k = neighbors.len() - 1 - (s - top - 1);
            assert(next[s].1 == neighbors[k]);
            assert(graph.successors[slot].contains(neighbors[k]));
        }
    }
}

/// The reverse topological order of a recorded walk hands out no node
/// twice, and hands out recorded nodes only.
pub proof fn lemma_reverse_topological_hands_out_once(graph: RecordedGraph)
    ensures
        reverse_topological_spec(graph).no_duplicates(),
        forall|n: ChunkContentGraphNode|
            reverse_topological_spec(graph).contains(n) ==> is_recorded(graph, n),
{
    let stack = pre_reversed(graph.roots);
    assert forall|s: int| 0 <= s < stack.len() implies is_recorded(graph, (#[trigger] stack[s]).1) by {
        assert(graph.roots.contains(graph.roots[graph.roots.len() - 1 - s]));
    }
    lemma_order_hands_out_once(graph, stack, Set::empty(), Seq::empty());
}

/// The recorded walk has an edge from `from` to `to`: the edges of `from`
/// were followed, and one of them led to `to`.
pub open spec fn has_edge(
    graph: RecordedGraph,
    from: ChunkContentGraphNode,
    to: ChunkContentGraphNode,
) -> bool {
    successors_of(graph, from) matches Some(neighbors) && neighbors.contains(to)
}

/// The nodes at positions `k` and `k + 1` of the path are joined by an
/// edge.
pub open spec fn joined_at(
    edge: spec_fn(ChunkContentGraphNode, ChunkContentGraphNode) -> bool,
    path: Seq<ChunkContentGraphNode>,
    k: int,
) -> bool {
    edge(path[k], path[k + 1])
}

/// A path: at least one node, each joined to the next by an edge.
pub open spec fn is_path(
    edge: spec_fn(ChunkContentGraphNode, ChunkContentGraphNode) -> bool,
    path: Seq<ChunkContentGraphNode>,
) -> bool {
    path.len() > 0 && forall|k: int| 0 <= k < path.len() - 1 ==> #[trigger] joined_at(edge, path, k)
}

/// A path of edges leads from `from` to `to`. Every node leads to itself.
pub open spec fn leads_to(
    edge: spec_fn(ChunkContentGraphNode, ChunkContentGraphNode) -> bool,
    from: ChunkContentGraphNode,
    to: ChunkContentGraphNode,
) -> bool {
    exists|path: Seq<ChunkContentGraphNode>| #[trigger]
        is_path(edge, path) && path.first() == from && path.last() == to
}

/// The edges of a recorded walk, as a relation.
pub open spec fn recorded_edges(graph: RecordedGraph) -> spec_fn(
    ChunkContentGraphNode,
    ChunkContentGraphNode,
) -> bool {
    |from: ChunkContentGraphNode, to: ChunkContentGraphNode| has_edge(graph, from, to)
}

/// Every node leads to itself.
pub proof fn lemma_leads_to_itself(
    edge: spec_fn(ChunkContentGraphNode, ChunkContentGraphNode) -> bool,
    node: ChunkContentGraphNode,
)
    ensures
        leads_to(edge, node, node),
{
    let path = seq![node];
    assert(is_path(edge, path));
    assert(path.first() == node && path.last() == node);
}

/// A path can be made longer by one edge.
pub proof fn lemma_leads_one_further(
    edge: spec_fn(ChunkContentGraphNode, ChunkContentGraphNode) -> bool,
    from: ChunkContentGraphNode,
    via: ChunkContentGraphNode,
    to: ChunkContentGraphNode,
)
    requires
        leads_to(edge, from, via),
        edge(via, to),
    ensures
        leads_to(edge, from, to),
{
    let path = choose|path: Seq<ChunkContentGraphNode>| #[trigger]
        is_path(edge, path) && path.first() == from && path.last() == via;
    let longer = path.push(to);
    assert forall|k: int| 0 <= k < longer.len() - 1 implies #[trigger] joined_at(
        edge,
        longer,
        k,
    ) by {
        if k < path.len() - 1 {
            assert(joined_at(edge, path, k));
        }
    }
    assert(is_path(edge, longer));
    assert(longer.first() == from && longer.last() == to);
}

/// A path in one relation is a path in every relation that holds all its
/// edges.
pub proof fn lemma_leads_to_in_larger(
    edge: spec_fn(ChunkContentGraphNode, ChunkContentGraphNode) -> bool,
    larger: spec_fn(ChunkContentGraphNode, ChunkContentGraphNode) -> bool,
    from: ChunkContentGraphNode,
    to: ChunkContentGraphNode,
)
    requires
        leads_to(edge, from, to),
        forall|a: ChunkContentGraphNode, b: ChunkContentGraphNode| #[trigger]
            edge(a, b) ==> larger(a, b),
    ensures
        leads_to(larger, from, to),
{
    let path = choose|path: Seq<ChunkContentGraphNode>| #[trigger]
        is_path(edge, path) && path.first() == from && path.last() == to;
    assert forall|k: int| 0 <= k < path.len() - 1 implies #[trigger] joined_at(larger, path, k) by {
        assert(joined_at(edge, path, k));
    }
    assert(is_path(larger, path));
}

/// The node stands in the list before position `p`.
pub open spec fn comes_before(
    output: Seq<ChunkContentGraphNode>,
    node: ChunkContentGraphNode,
    p: int,
) -> bool {
    exists|q: int| 0 <= q < p && #[trigger] output[q] == node
}

/// An entry that enters the node stands on the stack above position `s`.
pub open spec fn pre_above(stack: Seq<StackEntry>, s: int, node: ChunkContentGraphNode) -> bool {
    exists|t: int| s < t < stack.len() && #[trigger] stack[t] == (ReverseTopologicalPass::Pre, node)
}

/// Every node of the list stands behind the nodes that its edges led to,
/// but for those that lead back to it.
pub open spec fn in_order(graph: RecordedGraph, output: Seq<ChunkContentGraphNode>) -> bool {
    forall|p: int, to: ChunkContentGraphNode|
        0 <= p < output.len() && #[trigger] has_edge(graph, output[p], to) ==> comes_before(
            output,
            to,
            p,
        ) || leads_to(recorded_edges(graph), to, output[p])
}

/// Every successor of a node that waits to be handed out was visited, or is
/// to be entered before that node is handed out.
pub open spec fn successors_in_sight(
    graph: RecordedGraph,
    stack: Seq<StackEntry>,
    visited: Set<ChunkContentGraphNode>,
) -> bool {
    forall|s: int, to: ChunkContentGraphNode|
        post_at(stack, s) && #[trigger] has_edge(graph, stack[s].1, to) ==> visited.contains(to)
            || pre_above(stack, s, to)
}

/// A node that waits to be handed out leads to every node above it on the
/// stack.
pub open spec fn stack_is_chain(graph: RecordedGraph, stack: Seq<StackEntry>) -> bool {
    forall|s: int, t: int|
        #[trigger] post_at(stack, s) && s < t < stack.len() ==> leads_to(
            recorded_edges(graph),
            stack[s].1,
            (#[trigger] stack[t]).1,
        )
}

/// What holds of the order while the stack is worked off.
pub open spec fn ordered(
    graph: RecordedGraph,
    stack: Seq<StackEntry>,
    visited: Set<ChunkContentGraphNode>,
    output: Seq<ChunkContentGraphNode>,
) -> bool {
    &&& in_order(graph, output)
    &&& successors_in_sight(graph, stack, visited)
    &&& stack_is_chain(graph, stack)
}

/// One more node at the end of a list in order: the list stays in order if
/// the new node stands behind the nodes that its edges led to.
pub proof fn lemma_push_in_order(
    graph: RecordedGraph,
    output: Seq<ChunkContentGraphNode>,
    node: ChunkContentGraphNode,
)
    requires
        in_order(graph, output),
        forall|to: ChunkContentGraphNode| #[trigger]
            has_edge(graph, node, to) ==> output.contains(to) || leads_to(
                recorded_edges(graph),
                to,
                node,
            ),
    ensures
        in_order(graph, output.push(node)),
{
    let next = output.push(node);
    assert forall|p: int, to: ChunkContentGraphNode|
        0 <= p < next.len() && #[trigger] has_edge(graph, next[p], to) implies comes_before(
        next,
        to,
        p,
    ) || leads_to(recorded_edges(graph), to, next[p]) by {
        if p < output.len() {
            assert(next[p] == output[p]);
            if comes_before(output, to, p) {
                let q = choose|q: int| 0 <= q < p && #[trigger] output[q] == to;
                assert(next[q] == to);
            }
        } else {
            if output.contains(to) {
                let q = choose|q: int| 0 <= q < output.len() && output[q] == to;
                assert(next[q] == to);
            }
        }
    }
}

/// Handing out the node on top of the stack keeps the order.
pub proof fn lemma_hand_out_keeps_order(
    graph: RecordedGraph,
    stack: Seq<StackEntry>,
    visited: Set<ChunkContentGraphNode>,
    output: Seq<ChunkContentGraphNode>,
)
    requires
        bookkeeping(stack, visited, output),
        ordered(graph, stack, visited, output),
        stack.len() > 0,
        stack.last().0 == ReverseTopologicalPass::Post,
    ensures
        ordered(graph, stack.drop_last(), visited, output.push(stack.last().1)),
{
    let rest = stack.drop_last();
    let current = stack.last().1;
    let top = stack.len() - 1;
    assert(post_at(stack, top));
    assert forall|to: ChunkContentGraphNode| #[trigger]
        has_edge(graph, current, to) implies output.contains(to) || leads_to(
        recorded_edges(graph),
        to,
        current,
    ) by {
        assert(has_edge(graph, stack[top].1, to));
        assert(visited.contains(to) || pre_above(stack, top, to));
        assert(visited.contains(to));
        if !output.contains(to) {
            let s = choose|s: int| #[trigger] post_at(stack, s) && stack[s].1 == to;
            if s == top {
                lemma_leads_to_itself(recorded_edges(graph), current);
            } else {
                assert(stack[top].1 == current);
            }
        }
    }
    lemma_push_in_order(graph, output, current);
    assert forall|s: int, to: ChunkContentGraphNode|
        post_at(rest, s) && #[trigger] has_edge(graph, rest[s].1, to) implies visited.contains(to)
        || pre_above(rest, s, to) by {
        assert(post_at(stack, s));
        assert(has_edge(graph, stack[s].1, to));
        if !visited.contains(to) {
            let t = choose|t: int|
                s < t < stack.len() && #[trigger] stack[t] == (ReverseTopologicalPass::Pre, to);
            assert(rest[t] == stack[t]);
        }
    }
    assert forall|s: int, t: int| #[trigger] post_at(rest, s) && s < t < rest.len() implies leads_to(
        recorded_edges(graph),
        rest[s].1,
        (#[trigger] rest[t]).1,
    ) by {
        assert(post_at(stack, s));
        assert(stack[t] == rest[t]);
    }
}

/// Dropping the entry on top of the stack, whose node is visited by then,
/// keeps what holds of the stack.
pub proof fn lemma_drop_keeps_order(
    graph: RecordedGraph,
    stack: Seq<StackEntry>,
    visited: Set<ChunkContentGraphNode>,
    seen: Set<ChunkContentGraphNode>,
)
    requires
        successors_in_sight(graph, stack, visited),
        stack_is_chain(graph, stack),
        stack.len() > 0,
        stack.last().0 == ReverseTopologicalPass::Pre,
        seen.contains(stack.last().1),
        forall|n: ChunkContentGraphNode| visited.contains(n) ==> seen.contains(n),
    ensures
        successors_in_sight(graph, stack.drop_last(), seen),
        stack_is_chain(graph, stack.drop_last()),
{
    let rest = stack.drop_last();
    let top = stack.len() - 1;
    assert forall|s: int, to: ChunkContentGraphNode|
        post_at(rest, s) && #[trigger] has_edge(graph, rest[s].1, to) implies seen.contains(to)
        || pre_above(rest, s, to) by {
        assert(post_at(stack, s));
        assert(has_edge(graph, stack[s].1, to));
        if !visited.contains(to) {
            let t = choose|t: int|
                s < t < stack.len() && #[trigger] stack[t] == (ReverseTopologicalPass::Pre, to);
            if t < top {
                assert(rest[t] == stack[t]);
            }
        }
    }
    assert forall|s: int, t: int| #[trigger] post_at(rest, s) && s < t < rest.len() implies leads_to(
        recorded_edges(graph),
        rest[s].1,
        (#[trigger] rest[t]).1,
    ) by {
        assert(post_at(stack, s));
        assert(stack[t] == rest[t]);
    }
}

/// Entering a node keeps what holds of the stack.
pub proof fn lemma_enter_keeps_order(
    graph: RecordedGraph,
    stack: Seq<StackEntry>,
    visited: Set<ChunkContentGraphNode>,
    neighbors: Seq<ChunkContentGraphNode>,
)
    requires
        successors_in_sight(graph, stack, visited),
        stack_is_chain(graph, stack),
        stack.len() > 0,
        stack.last().0 == ReverseTopologicalPass::Pre,
        successors_of(graph, stack.last().1) == Some(neighbors),
    ensures
        successors_in_sight(graph, entered(stack, neighbors), visited.insert(stack.last().1)),
        stack_is_chain(graph, entered(stack, neighbors)),
{
    let current = stack.last().1;
    let top = stack.len() - 1;
    let next = entered(stack, neighbors);
    let seen = visited.insert(current);
    let edges = recorded_edges(graph);
    assert forall|t: int| top < t < next.len() implies (#[trigger] next[t]) == (
        ReverseTopologicalPass::Pre,
        neighbors[neighbors.len() - 1 - (t - top - 1)],
    ) by {}
    assert forall|s: int, to: ChunkContentGraphNode|
        post_at(next, s) && #[trigger] has_edge(graph, next[s].1, to) implies seen.contains(to)
        || pre_above(next, s, to) by {
        if s < top {
            assert(next[s] == stack[s]);
            assert(post_at(stack, s));
            assert(has_edge(graph, stack[s].1, to));
            if !visited.contains(to) {
                let t = choose|t: int|
                    s < t < stack.len() && #[trigger] stack[t] == (ReverseTopologicalPass::Pre, to);
                if t < top {
                    assert(next[t] == stack[t]);
                }
            }
        } else {
            assert(s == top);
            let k = choose|k: int| 0 <= k < neighbors.len() && neighbors[k] == to;
            let t = top + 1 + (neighbors.len() - 1 - k);
            assert(next[t] == (ReverseTopologicalPass::Pre, to));
        }
    }
    assert forall|s: int, t: int| #[trigger] post_at(next, s) && s < t < next.len() implies leads_to(
        edges,
        next[s].1,
        (#[trigger] next[t]).1,
    ) by {
        if s < top {
            assert(next[s] == stack[s]);
            assert(post_at(stack, s));
            assert(leads_to(edges, stack[s].1, stack[top].1));
            if t < top {
                assert(next[t] == stack[t]);
            } else if t > top {
                let k = neighbors.len() - 1 - (t - top - 1);
                assert(neighbors.contains(neighbors[k]));
                assert(has_edge(graph, current, neighbors[k]));
                lemma_leads_one_further(edges, stack[s].1, current, neighbors[k]);
            }
        } else {
            assert(s == top);
            let k = neighbors.len() - 1 - (t - top - 1);
            assert(neighbors.contains(neighbors[k]));
            assert(has_edge(graph, current, neighbors[k]));
            lemma_leads_to_itself(edges, current);
            lemma_leads_one_further(edges, current, current, neighbors[k]);
        }
    }
}

/// Whatever is handed out from a state that keeps the bookkeeping and the
/// order is in order.
pub proof fn lemma_order_is_kept(
    graph: RecordedGraph,
    stack: Seq<StackEntry>,
    visited: Set<ChunkContentGraphNode>,
    output: Seq<ChunkContentGraphNode>,
)
    requires
        bookkeeping(stack, visited, output),
        ordered(graph, stack, visited, output),
    ensures
        in_order(graph, reverse_topological_from(graph, stack, visited, output)),
    decreases unvisited_slots(graph.nodes, visited), stack.len(),
{
    if stack.len() > 0 {
        let (pass, current) = stack.last();
        let rest = stack.drop_last();
        match pass {
            ReverseTopologicalPass::Post => {
                lemma_hand_out_keeps_bookkeeping(stack, visited, output);
                lemma_hand_out_keeps_order(graph, stack, visited, output);
                lemma_order_is_kept(graph, rest, visited, output.push(current));
            },
            ReverseTopologicalPass::Pre => {
                if visited.contains(current) {
                    lemma_drop_keeps_bookkeeping(stack, visited, output);
                    lemma_drop_keeps_order(graph, stack, visited, visited);
                    lemma_order_is_kept(graph, rest, visited, output);
                } else {
                    lemma_unvisited_insert(graph.nodes, visited, current);
                    lemma_slot_of(graph.nodes, current);
                    match successors_of(graph, current) {
                        None => {
                            lemma_leaf_keeps_bookkeeping(stack, visited, output);
                            lemma_drop_keeps_order(graph, stack, visited, visited.insert(current));
                            lemma_push_in_order(graph, output, current);
                            lemma_order_is_kept(
                                graph,
                                rest,
                                visited.insert(current),
                                output.push(current),
                            );
                        },
                        Some(neighbors) => {
                            lemma_enter_keeps_bookkeeping(stack, visited, output, neighbors);
                            lemma_enter_keeps_order(graph, stack, visited, neighbors);
                            lemma_order_is_kept(
                                graph,
                                entered(stack, neighbors),
                                visited.insert(current),
                                output,
                            );
                        },
                    }
                }
            },
        }
    }
}

/// Reverse topological order. In the order in which the nodes of a
/// recorded walk are handed out, every node stands behind the nodes that
/// its edges led to, but for those that lead back to it.
pub proof fn lemma_reverse_topological_is_in_order(graph: RecordedGraph)
    ensures
        in_order(graph, reverse_topological_spec(graph)),
{
    let stack = pre_reversed(graph.roots);
    assert(bookkeeping(stack, Set::empty(), Seq::empty()));
    assert(ordered(graph, stack, Set::empty(), Seq::empty()));
    lemma_order_is_kept(graph, stack, Set::empty(), Seq::empty());
}

} // verus!
