//! The order in which the nodes of a recorded walk are handed out: every
//! node once, after the nodes that it leads to.

use vstd::prelude::*;

use crate::classify::ChunkContentGraphNode;
use crate::traversal::successors_view;
use crate::traversal::AdjacencyMap;

verus! {

/// What a walk has recorded.
pub struct RecordedGraph {
    /// The nodes that the walk started from.
    pub roots: Seq<ChunkContentGraphNode>,
    /// The nodes whose edges were followed.
    pub nodes: Seq<ChunkContentGraphNode>,
    /// The nodes that the edges of each of these nodes led to.
    pub successors: Seq<Seq<ChunkContentGraphNode>>,
}

impl View for AdjacencyMap {
    type V = RecordedGraph;

    open spec fn view(&self) -> RecordedGraph {
        RecordedGraph {
            roots: self.roots@,
            nodes: self.nodes@,
            successors: successors_view(self.successors@),
        }
    }
}

/// Whether a node on the stack is still to be entered, or was entered and is
/// to be handed out.
#[derive(Copy, Clone, Debug, PartialEq, Eq, Structural)]
pub enum ReverseTopologicalPass {
    Pre,
    Post,
}

/// An entry of the stack.
pub type StackEntry = (ReverseTopologicalPass, ChunkContentGraphNode);

/// The first position of `node` in `nodes`.
pub open spec fn slot_of(nodes: Seq<ChunkContentGraphNode>, node: ChunkContentGraphNode) -> Option<
    int,
>
    decreases nodes.len(),
{
    if nodes.len() == 0 {
        None
    } else if nodes.first() == node {
        Some(0)
    } else {
        match slot_of(nodes.drop_first(), node) {
            Some(slot) => Some(slot + 1),
            None => None,
        }
    }
}

/// `slot_of` gives the first position at which the node stands, and none
/// exactly when the node does not occur.
pub proof fn lemma_slot_of(nodes: Seq<ChunkContentGraphNode>, node: ChunkContentGraphNode)
    ensures
        match slot_of(nodes, node) {
            Some(slot) => {
                &&& 0 <= slot < nodes.len()
                &&& nodes[slot] == node
                &&& forall|k: int| 0 <= k < slot ==> nodes[k] != node
            },
            None => forall|k: int| 0 <= k < nodes.len() ==> nodes[k] != node,
        },
    decreases nodes.len(),
{
    if nodes.len() > 0 && nodes.first() != node {
        let rest = nodes.drop_first();
        lemma_slot_of(rest, node);
        match slot_of(rest, node) {
            Some(slot) => {
                assert forall|k: int| 0 <= k < slot + 1 implies nodes[k] != node by {
                    if k > 0 {
                        assert(rest[k - 1] == nodes[k]);
                    }
                }
            },
            None => {
                assert forall|k: int| 0 <= k < nodes.len() implies nodes[k] != node by {
                    if k > 0 {
                        assert(rest[k - 1] == nodes[k]);
                    }
                }
            },
        }
    }
}

/// The recorded successors of a node; none for a node whose edges were not
/// followed.
pub open spec fn successors_of(graph: RecordedGraph, node: ChunkContentGraphNode) -> Option<
    Seq<ChunkContentGraphNode>,
> {
    match slot_of(graph.nodes, node) {
        Some(slot) => if slot < graph.successors.len() {
            Some(graph.successors[slot])
        } else {
            None
        },
        None => None,
    }
}

/// The stack entries that enter `neighbors`, the first of them on top.
pub open spec fn pre_reversed(neighbors: Seq<ChunkContentGraphNode>) -> Seq<StackEntry> {
    Seq::new(
        neighbors.len(),
        |i: int| (ReverseTopologicalPass::Pre, neighbors[neighbors.len() - 1 - i]),
    )
}

/// The number of positions of `nodes` whose node is not in `visited`.
pub open spec fn unvisited_slots(
    nodes: Seq<ChunkContentGraphNode>,
    visited: Set<ChunkContentGraphNode>,
) -> nat
    decreases nodes.len(),
{
    if nodes.len() == 0 {
        0
    } else {
        unvisited_slots(nodes.drop_last(), visited) + if visited.contains(nodes.last()) {
            0nat
        } else {
            1nat
        }
    }
}

/// Visiting one more node leaves no more positions unvisited, and fewer if
/// the node stands at one of them and was not visited.
pub proof fn lemma_unvisited_insert(
    nodes: Seq<ChunkContentGraphNode>,
    visited: Set<ChunkContentGraphNode>,
    node: ChunkContentGraphNode,
)
    ensures
        unvisited_slots(nodes, visited.insert(node)) <= unvisited_slots(nodes, visited),
        nodes.contains(node) && !visited.contains(node) ==> unvisited_slots(
            nodes,
            visited.insert(node),
        ) < unvisited_slots(nodes, visited),
    decreases nodes.len(),
{
    if nodes.len() > 0 {
        lemma_unvisited_insert(nodes.drop_last(), visited, node);
        if nodes.contains(node) && !visited.contains(node) && nodes.last() != node {
            let k = choose|k: int| 0 <= k < nodes.len() && nodes[k] == node;
            assert(nodes.drop_last()[k] == node);
        }
    }
}

/// Works off the stack. A node to be handed out is handed out. A node to be
/// entered is dropped if it was visited before; otherwise it is visited,
/// and it is handed out at once if its edges were not followed, or put
/// back to be handed out after its successors, which are entered first,
/// in their order.
pub open spec fn reverse_topological_from(
    graph: RecordedGraph,
    stack: Seq<StackEntry>,
    visited: Set<ChunkContentGraphNode>,
    output: Seq<ChunkContentGraphNode>,
) -> Seq<ChunkContentGraphNode>
    decreases unvisited_slots(graph.nodes, visited), stack.len(),
{
    if stack.len() == 0 {
        output
    } else {
        let (pass, current) = stack.last();
        let rest = stack.drop_last();
        match pass {
            ReverseTopologicalPass::Post => reverse_topological_from(
                graph,
                rest,
                visited,
                output.push(current),
            ),
            ReverseTopologicalPass::Pre => if visited.contains(current) {
                reverse_topological_from(graph, rest, visited, output)
            } else {
                proof {
                    lemma_unvisited_insert(graph.nodes, visited, current);
                    lemma_slot_of(graph.nodes, current);
                }
                match successors_of(graph, current) {
                    None => reverse_topological_from(
                        graph,
                        rest,
                        visited.insert(current),
                        output.push(current),
                    ),
                    Some(neighbors) => reverse_topological_from(
                        graph,
                        rest.push((ReverseTopologicalPass::Post, current)) + pre_reversed(
                            neighbors,
                        ),
                        visited.insert(current),
                        output,
                    ),
                }
            },
        }
    }
}

/// The nodes of a recorded walk in reverse topological order, starting from
/// the roots: each node once, a node whose edges were followed after the
/// nodes that they led to.
pub open spec fn reverse_topological_spec(graph: RecordedGraph) -> Seq<ChunkContentGraphNode> {
    reverse_topological_from(graph, pre_reversed(graph.roots), Set::empty(), Seq::empty())
}

/// Whether a list of nodes holds a node.
fn contains_node(nodes: &Vec<ChunkContentGraphNode>, node: ChunkContentGraphNode) -> (r: bool)
    ensures
        r == nodes@.contains(node),
{
    let mut i: usize = 0;
    while i < nodes.len()
        invariant
            i <= nodes.len(),
            forall|j: int| 0 <= j < i ==> nodes@[j] != node,
        decreases nodes.len() - i,
    {
        if nodes[i] == node {
            return true;
        }
        i += 1;
    }
    false
}

/// The first position of a node in a list of nodes.
fn find_slot(nodes: &Vec<ChunkContentGraphNode>, node: ChunkContentGraphNode) -> (r: Option<usize>)
    ensures
        match r {
            Some(slot) => slot_of(nodes@, node) == Some(slot as int),
            None => slot_of(nodes@, node) is None,
        },
{
    let mut i: usize = 0;
    while i < nodes.len()
        invariant
            i <= nodes.len(),
            forall|j: int| 0 <= j < i ==> nodes@[j] != node,
        decreases nodes.len() - i,
    {
        if nodes[i] == node {
            proof {
                lemma_slot_of(nodes@, node);
            }
            return Some(i);
        }
        i += 1;
    }
    proof {
        lemma_slot_of(nodes@, node);
    }
    None
}

/// Puts entries on the stack that enter `neighbors`, the first of them on
/// top.
fn push_pre_reversed(stack: &mut Vec<StackEntry>, neighbors: &Vec<ChunkContentGraphNode>)
    ensures
        final(stack)@ == old(stack)@ + pre_reversed(neighbors@),
{
    let mut left: usize = neighbors.len();
    assert(stack@ =~= old(stack)@ + pre_reversed(neighbors@).take(0));
    while left > 0
        invariant
            left <= neighbors.len(),
            stack@ == old(stack)@ + pre_reversed(neighbors@).take(neighbors.len() - left),
        decreases left,
    {
        left -= 1;
        stack.push((ReverseTopologicalPass::Pre, neighbors[left]));
        assert(stack@ =~= old(stack)@ + pre_reversed(neighbors@).take(neighbors.len() - left));
    }
    assert(pre_reversed(neighbors@).take(neighbors.len() as int) =~= pre_reversed(neighbors@));
}

impl AdjacencyMap {
    /// The nodes of the map in reverse topological order, starting from the
    /// roots.
    pub fn into_reverse_topological(self) -> (r: Vec<ChunkContentGraphNode>)
        ensures
            r@ == reverse_topological_spec(self@),
    {
        let mut stack: Vec<StackEntry> = Vec::new();
        push_pre_reversed(&mut stack, &self.roots);
        let mut visited: Vec<ChunkContentGraphNode> = Vec::new();
        let mut output: Vec<ChunkContentGraphNode> = Vec::new();
        assert(stack@ =~= pre_reversed(self.roots@));
        assert(visited@.to_set() =~= Set::empty());
        while stack.len() > 0
            invariant
                reverse_topological_from(self@, stack@, visited@.to_set(), output@)
                    == reverse_topological_spec(self@),
            decreases unvisited_slots(self@.nodes, visited@.to_set()), stack.len(),
        {
            let ghost before = stack@;
            let ghost seen = visited@.to_set();
            let ghost emitted = output@;
            let (pass, current) = stack.pop().unwrap();
            assert(before.last() == (pass, current));
            assert(stack@ == before.drop_last());
            match pass {
                ReverseTopologicalPass::Post => {
                    output.push(current);
                },
                ReverseTopologicalPass::Pre => {
                    if !contains_node(&visited, current) {
                        let ghost seen_list = visited@;
                        visited.push(current);
                        proof {
                            lemma_push_to_set(seen_list, current);
                            assert(visited@.to_set() == seen.insert(current));
                            lemma_unvisited_insert(self@.nodes, seen, current);
                            lemma_slot_of(self@.nodes, current);
                        }
                        let slot = find_slot(&self.nodes, current);
                        let followed = match slot {
                            Some(j) => j < self.successors.len(),
                            None => false,
                        };
                        if followed {
                            let j = slot.unwrap();
                            assert(successors_of(self@, current) == Some(self.successors@[j as int]@));
                            stack.push((ReverseTopologicalPass::Post, current));
                            push_pre_reversed(&mut stack, &self.successors[j]);
                        } else {
                            assert(successors_of(self@, current) is None);
                            output.push(current);
                        }
                    } else {
                        assert(seen.contains(current));
                    }
                },
            }
        }
        output
    }
}

/// Adding an element to a list adds it to the set of its elements.
proof fn lemma_push_to_set(visited: Seq<ChunkContentGraphNode>, node: ChunkContentGraphNode)
    ensures
        visited.push(node).to_set() == visited.to_set().insert(node),
{
    visited.lemma_push_to_set_commute(node);
}

} // verus!
