//! The walk over the chunk-content graph: every node whose edges are
//! followed is expanded once, in the order in which it was first reached,
//! and what the walk finds is recorded in an adjacency map.

use vstd::prelude::*;

use crate::classify::ChunkContentContext;
use crate::classify::ChunkContentGraphNode;
use crate::classify::GraphEdge;
use crate::error::ChunkingError;
use crate::graph::Module;
use crate::visit::edges_spec;
use crate::visit::visit_spec;
use crate::visit::ChunkContentVisit;
use crate::visit::VisitControlFlow;
use crate::visit::VisitState;

verus! {

/// What a walk has recorded: the nodes it started from, and for every node
/// whose edges were followed the nodes that those edges led to, in order.
#[derive(Clone, Debug)]
pub struct AdjacencyMap {
    /// The nodes that the walk started from.
    pub roots: Vec<ChunkContentGraphNode>,
    /// The nodes whose edges are followed, in the order in which they were
    /// first reached.
    pub nodes: Vec<ChunkContentGraphNode>,
    /// For each of the first `successors.len()` nodes, the nodes that its
    /// edges led to.
    pub successors: Vec<Vec<ChunkContentGraphNode>>,
}

/// A walk in progress: the visitor, the map recorded so far, and which chunk
/// items and modules have their edges followed already.
#[derive(Clone, Debug)]
pub struct GraphTraversal<'a> {
    pub visit: ChunkContentVisit<'a>,
    pub map: AdjacencyMap,
    /// `scheduled_items[i]` says whether the chunk item with handle `i` is
    /// among `map.nodes`.
    pub scheduled_items: Vec<bool>,
    /// `scheduled_modules[i]` says whether the passthrough module with
    /// handle `i` is among `map.nodes`.
    pub scheduled_modules: Vec<bool>,
}

/// How a walk ended.
#[derive(Debug)]
pub enum GraphTraversalResult {
    /// The walk followed every edge, or failed on one.
    Completed(Result<AdjacencyMap, ChunkingError>),
    /// The visitor stopped the walk.
    Aborted,
}

/// The state of a walk.
pub struct Walk {
    pub visit: VisitState,
    pub roots: Seq<ChunkContentGraphNode>,
    pub nodes: Seq<ChunkContentGraphNode>,
    pub successors: Seq<Seq<ChunkContentGraphNode>>,
    pub scheduled_items: Seq<bool>,
    pub scheduled_modules: Seq<bool>,
}

/// How a walk ends.
pub enum WalkOutcome {
    /// Every edge was followed; this was recorded.
    Completed(Walk),
    /// The visitor stopped the walk.
    Aborted,
    /// This module had to be placed and could not be.
    Failed(Module),
}

/// What visiting a list of edges gives.
pub enum VisitedEdges {
    /// The state after the last edge, and the nodes of the edges in order.
    Done(Walk, Seq<ChunkContentGraphNode>),
    /// The visitor stopped the walk at one of the edges.
    Aborted,
}

/// The lists of successors as sequences.
pub open spec fn successors_view(successors: Seq<Vec<ChunkContentGraphNode>>) -> Seq<
    Seq<ChunkContentGraphNode>,
> {
    successors.map_values(|nodes: Vec<ChunkContentGraphNode>| nodes@)
}

impl<'a> View for GraphTraversal<'a> {
    type V = Walk;

    open spec fn view(&self) -> Walk {
        Walk {
            visit: self.visit@,
            roots: self.map.roots@,
            nodes: self.map.nodes@,
            successors: successors_view(self.map.successors@),
            scheduled_items: self.scheduled_items@,
            scheduled_modules: self.scheduled_modules@,
        }
    }
}

/// The number of entries of `flags` that are not set.
pub open spec fn count_unset(flags: Seq<bool>) -> nat
    decreases flags.len(),
{
    if flags.len() == 0 {
        0
    } else {
        count_unset(flags.drop_last()) + if flags.last() {
            0nat
        } else {
            1nat
        }
    }
}

/// Setting an entry that was not set leaves one unset entry less.
pub proof fn lemma_count_unset_update(flags: Seq<bool>, i: int)
    requires
        0 <= i < flags.len(),
        !flags[i],
    ensures
        count_unset(flags.update(i, true)) + 1 == count_unset(flags),
    decreases flags.len(),
{
    if i == flags.len() - 1 {
        assert(flags.update(i, true).drop_last() =~= flags.drop_last());
    } else {
        assert(flags.update(i, true).drop_last() =~= flags.drop_last().update(i, true));
        lemma_count_unset_update(flags.drop_last(), i);
    }
}

/// The walk after `node` was reached over an edge that is followed: a chunk
/// item or passthrough module of the graph is scheduled for expansion the
/// first time this happens. No other node has edges.
pub open spec fn schedule_spec(walk: Walk, node: ChunkContentGraphNode) -> Walk {
    match node {
        ChunkContentGraphNode::ChunkItem { item } => if item.0 < walk.scheduled_items.len()
            && !walk.scheduled_items[item.0 as int] {
            Walk {
                nodes: walk.nodes.push(node),
                scheduled_items: walk.scheduled_items.update(item.0 as int, true),
                ..walk
            }
        } else {
            walk
        },
        ChunkContentGraphNode::PassthroughModule { asset } => if asset.0
            < walk.scheduled_modules.len() && !walk.scheduled_modules[asset.0 as int] {
            Walk {
                nodes: walk.nodes.push(node),
                scheduled_modules: walk.scheduled_modules.update(asset.0 as int, true),
                ..walk
            }
        } else {
            walk
        },
        _ => walk,
    }
}

/// Visits `edges` in order, starting from `walk` with the nodes `recorded`
/// so far. The node of every edge that is followed or skipped is recorded;
/// the node of an edge that is followed is scheduled as well.
pub open spec fn visit_edges_spec(
    split: bool,
    walk: Walk,
    recorded: Seq<ChunkContentGraphNode>,
    edges: Seq<GraphEdge>,
) -> VisitedEdges
    decreases edges.len(),
{
    if edges.len() == 0 {
        VisitedEdges::Done(walk, recorded)
    } else {
        let (visit, flow) = visit_spec(split, walk.visit, edges.first());
        let visited = Walk { visit, ..walk };
        match flow {
            VisitControlFlow::Continue(node) => visit_edges_spec(
                split,
                schedule_spec(visited, node),
                recorded.push(node),
                edges.drop_first(),
            ),
            VisitControlFlow::Skip(node) => visit_edges_spec(
                split,
                visited,
                recorded.push(node),
                edges.drop_first(),
            ),
            VisitControlFlow::Abort => VisitedEdges::Aborted,
        }
    }
}

/// The number of chunk items and modules not yet scheduled.
pub open spec fn unscheduled(walk: Walk) -> nat {
    count_unset(walk.scheduled_items) + count_unset(walk.scheduled_modules)
}

/// A bound on the work that is left: every expansion uses up one scheduled
/// node, and every node that is scheduled uses up one flag.
pub open spec fn walk_measure(walk: Walk) -> nat {
    (2 * unscheduled(walk) + walk.nodes.len() - walk.successors.len()) as nat
}

/// Scheduling keeps the sum of what is unscheduled and what is scheduled.
pub proof fn lemma_schedule_measure(walk: Walk, node: ChunkContentGraphNode)
    ensures
        schedule_spec(walk, node).successors == walk.successors,
        schedule_spec(walk, node).roots == walk.roots,
        schedule_spec(walk, node).visit == walk.visit,
        schedule_spec(walk, node).nodes.len() >= walk.nodes.len(),
        unscheduled(schedule_spec(walk, node)) + schedule_spec(walk, node).nodes.len()
            == unscheduled(walk) + walk.nodes.len(),
{
    match node {
        ChunkContentGraphNode::ChunkItem { item } => {
            if item.0 < walk.scheduled_items.len() && !walk.scheduled_items[item.0 as int] {
                lemma_count_unset_update(walk.scheduled_items, item.0 as int);
            }
        },
        ChunkContentGraphNode::PassthroughModule { asset } => {
            if asset.0 < walk.scheduled_modules.len() && !walk.scheduled_modules[asset.0 as int] {
                lemma_count_unset_update(walk.scheduled_modules, asset.0 as int);
            }
        },
        _ => {},
    }
}

/// Visiting edges keeps the sum of what is unscheduled and what is
/// scheduled, and expands nothing.
pub proof fn lemma_visit_edges_measure(
    split: bool,
    walk: Walk,
    recorded: Seq<ChunkContentGraphNode>,
    edges: Seq<GraphEdge>,
)
    ensures
        match visit_edges_spec(split, walk, recorded, edges) {
            VisitedEdges::Done(after, _) => {
                &&& after.successors == walk.successors
                &&& after.roots == walk.roots
                &&& after.nodes.len() >= walk.nodes.len()
                &&& unscheduled(after) + after.nodes.len() == unscheduled(walk)
                    + walk.nodes.len()
            },
            VisitedEdges::Aborted => true,
        },
    decreases edges.len(),
{
    if edges.len() > 0 {
        let (visit, flow) = visit_spec(split, walk.visit, edges.first());
        let visited = Walk { visit, ..walk };
        match flow {
            VisitControlFlow::Continue(node) => {
                lemma_schedule_measure(visited, node);
                lemma_visit_edges_measure(
                    split,
                    schedule_spec(visited, node),
                    recorded.push(node),
                    edges.drop_first(),
                );
            },
            VisitControlFlow::Skip(node) => {
                lemma_visit_edges_measure(split, visited, recorded.push(node), edges.drop_first());
            },
            VisitControlFlow::Abort => {},
        }
    }
}

/// The walk after the edges of its next scheduled node were visited and
/// their nodes recorded as that node's successors.
pub open spec fn expanded(after: Walk, recorded: Seq<ChunkContentGraphNode>) -> Walk {
    Walk { successors: after.successors.push(recorded), ..after }
}

/// Runs a walk to its end: as long as a scheduled node is not expanded, the
/// first such node is expanded. The walk fails at the first node whose
/// edges cannot be classified, and is aborted when the visitor says so.
pub open spec fn run_spec(ctx: ChunkContentContext, walk: Walk) -> WalkOutcome
    decreases walk_measure(walk),
{
    if walk.successors.len() >= walk.nodes.len() {
        WalkOutcome::Completed(walk)
    } else {
        match edges_spec(ctx, walk.nodes[walk.successors.len() as int]) {
            Err(module) => WalkOutcome::Failed(module),
            Ok(edges) => match visit_edges_spec(ctx.split, walk, Seq::empty(), edges) {
                VisitedEdges::Aborted => WalkOutcome::Aborted,
                VisitedEdges::Done(after, recorded) => {
                    proof {
                        lemma_visit_edges_measure(ctx.split, walk, Seq::empty(), edges);
                    }
                    run_spec(ctx, expanded(after, recorded))
                },
            },
        }
    }
}

/// The walk before anything was visited, over a graph with the given
/// numbers of chunk items and modules.
pub open spec fn initial_walk(visit: VisitState, items: nat, modules: nat) -> Walk {
    Walk {
        visit,
        roots: Seq::empty(),
        nodes: Seq::empty(),
        successors: Seq::empty(),
        scheduled_items: Seq::new(items, |i: int| false),
        scheduled_modules: Seq::new(modules, |i: int| false),
    }
}

/// The whole walk from the root edges: the root edges are visited and their
/// nodes recorded as roots, then the walk runs to its end.
pub open spec fn traverse_spec(
    ctx: ChunkContentContext,
    visit: VisitState,
    root_edges: Seq<GraphEdge>,
) -> WalkOutcome {
    let start = initial_walk(
        visit,
        ctx.graph.chunk_items@.len(),
        ctx.graph.modules@.len(),
    );
    match visit_edges_spec(ctx.split, start, Seq::empty(), root_edges) {
        VisitedEdges::Aborted => WalkOutcome::Aborted,
        VisitedEdges::Done(after, recorded) => run_spec(ctx, Walk { roots: recorded, ..after }),
    }
}

impl AdjacencyMap {
    /// A map in which nothing is recorded.
    pub fn new() -> (r: Self)
        ensures
            r.roots@ =~= Seq::empty(),
            r.nodes@ =~= Seq::empty(),
            r.successors@ =~= Seq::empty(),
    {
        AdjacencyMap { roots: Vec::new(), nodes: Vec::new(), successors: Vec::new() }
    }

    /// Walks the graph from the root edges and records what is found.
    /// Every edge is shown to the visitor, which decides whether the walk
    /// goes on behind it. The answer is the recorded map, the error of the
    /// first node whose edges cannot be classified, or that the visitor
    /// stopped the walk.
    pub fn visit<'a>(self, root_edges: Vec<GraphEdge>, visit: ChunkContentVisit<'a>) -> (r:
        GraphTraversalResult)
        requires
            visit.wf(),
        ensures
            traversal_result_is(
                r,
                visit.chunk_content_context,
                traverse_spec(visit.chunk_content_context, visit@, root_edges@),
            ),
    {
        let ctx = visit.chunk_content_context;
        let mut traversal = GraphTraversal {
            visit,
            map: AdjacencyMap::new(),
            scheduled_items: unset_flags(ctx.graph.chunk_items.len()),
            scheduled_modules: unset_flags(ctx.graph.modules.len()),
        };
        proof {
            assert(traversal.map.successors@.map_values(
                |nodes: Vec<ChunkContentGraphNode>| nodes@,
            ) =~= Seq::empty());
            assert(traversal@ == initial_walk(
                visit@,
                ctx.graph.chunk_items@.len(),
                ctx.graph.modules@.len(),
            ));
        }
        let mut roots: Vec<ChunkContentGraphNode> = Vec::new();
        if !traversal.visit_edges(&root_edges, &mut roots) {
            return GraphTraversalResult::Aborted;
        }
        traversal.map.roots = roots;
        traversal.run()
    }
}

/// Whether the answer of a walk says what the outcome says: the same map,
/// the same abort, or an error that names the module on which it failed.
pub open spec fn traversal_result_is(
    r: GraphTraversalResult,
    ctx: ChunkContentContext,
    outcome: WalkOutcome,
) -> bool {
    match r {
        GraphTraversalResult::Completed(Ok(map)) => outcome matches WalkOutcome::Completed(walk)
            && map.roots@ == walk.roots && map.nodes@ == walk.nodes && successors_view(
            map.successors@,
        ) == walk.successors,
        GraphTraversalResult::Completed(Err(e)) => outcome matches WalkOutcome::Failed(module)
            && e.names(ctx.graph, module),
        GraphTraversalResult::Aborted => outcome is Aborted,
    }
}

/// A list of `n` flags, none of them set.
fn unset_flags(n: usize) -> (r: Vec<bool>)
    ensures
        r@ == Seq::new(n as nat, |i: int| false),
{
    let mut flags: Vec<bool> = Vec::new();
    let mut i: usize = 0;
    while i < n
        invariant
            i <= n,
            flags@ == Seq::new(i as nat, |i: int| false),
        decreases n - i,
    {
        flags.push(false);
        i += 1;
        assert(flags@ =~= Seq::new(i as nat, |i: int| false));
    }
    flags
}

impl<'a> GraphTraversal<'a> {
    /// Schedules a node for expansion, unless it has no edges or was
    /// scheduled before.
    fn schedule(&mut self, node: ChunkContentGraphNode)
        ensures
            final(self)@ == schedule_spec(old(self)@, node),
            final(self).visit == old(self).visit,
    {
        match node {
            ChunkContentGraphNode::ChunkItem { item } => {
                if item.0 < self.scheduled_items.len() && !self.scheduled_items[item.0] {
                    self.scheduled_items[item.0] = true;
                    self.map.nodes.push(node);
                }
            },
            ChunkContentGraphNode::PassthroughModule { asset } => {
                if asset.0 < self.scheduled_modules.len() && !self.scheduled_modules[asset.0] {
                    self.scheduled_modules[asset.0] = true;
                    self.map.nodes.push(node);
                }
            },
            _ => {},
        }
    }

    /// Shows the edges to the visitor one by one, records their nodes, and
    /// schedules the nodes behind which the walk goes on. The answer is
    /// `false` when the visitor stopped the walk.
    fn visit_edges(&mut self, edges: &Vec<GraphEdge>, recorded: &mut Vec<ChunkContentGraphNode>) -> (r:
        bool)
        requires
            old(self).visit.wf(),
        ensures
            final(self).visit.wf(),
            final(self).visit.chunk_content_context == old(self).visit.chunk_content_context,
            match visit_edges_spec(
                old(self).visit.chunk_content_context.split,
                old(self)@,
                old(recorded)@,
                edges@,
            ) {
                VisitedEdges::Done(after, nodes) => {
                    &&& r
                    &&& final(self)@ == after
                    &&& final(recorded)@ == nodes
                },
                VisitedEdges::Aborted => !r,
            },
    {
        let ghost split = self.visit.chunk_content_context.split;
        let mut i: usize = 0;
        assert(edges@.skip(0) =~= edges@);
        while i < edges.len()
            invariant
                i <= edges.len(),
                self.visit.wf(),
                self.visit.chunk_content_context == old(self).visit.chunk_content_context,
                split == self.visit.chunk_content_context.split,
                visit_edges_spec(split, self@, recorded@, edges@.skip(i as int))
                    == visit_edges_spec(split, old(self)@, old(recorded)@, edges@),
            decreases edges.len() - i,
        {
            proof {
                assert(edges@.skip(i as int).first() == edges@[i as int]);
                assert(edges@.skip(i as int).drop_first() =~= edges@.skip(i + 1));
            }
            match self.visit.visit(edges[i]) {
                VisitControlFlow::Continue(node) => {
                    self.schedule(node);
                    recorded.push(node);
                },
                VisitControlFlow::Skip(node) => {
                    recorded.push(node);
                },
                VisitControlFlow::Abort => {
                    return false;
                },
            }
            i += 1;
        }
        true
    }

    /// Expands the scheduled nodes one after the other until none is left.
    fn run(self) -> (r: GraphTraversalResult)
        requires
            self.visit.wf(),
        ensures
            traversal_result_is(
                r,
                self.visit.chunk_content_context,
                run_spec(self.visit.chunk_content_context, self@),
            ),
    {
        let ctx = self.visit.chunk_content_context;
        let ghost start = self@;
        let mut walk = self;
        while walk.map.successors.len() < walk.map.nodes.len()
            invariant
                walk.visit.wf(),
                walk.visit.chunk_content_context == ctx,
                self.visit.chunk_content_context == ctx,
                start == self@,
                run_spec(ctx, walk@) == run_spec(ctx, start),
            decreases walk_measure(walk@),
        {
            let ghost before = walk@;
            let node = walk.map.nodes[walk.map.successors.len()];
            assert(before.successors.len() == walk.map.successors.len());
            assert(before.nodes[before.successors.len() as int] == node);
            let edges = match walk.visit.edges(&node) {
                Ok(edges) => edges,
                Err(e) => {
                    return GraphTraversalResult::Completed(Err(e));
                },
            };
            let mut recorded: Vec<ChunkContentGraphNode> = Vec::new();
            if !walk.visit_edges(&edges, &mut recorded) {
                return GraphTraversalResult::Aborted;
            }
            proof {
                lemma_visit_edges_measure(ctx.split, before, Seq::empty(), edges@);
                assert(walk.map.successors@.push(recorded).map_values(
                    |nodes: Vec<ChunkContentGraphNode>| nodes@,
                ) =~= successors_view(walk.map.successors@).push(recorded@));
            }
            walk.map.successors.push(recorded);
        }
        GraphTraversalResult::Completed(Ok(walk.map))
    }
}

} // verus!
