use chunking::classify::ChunkContentContext;
use chunking::classify::ChunkContentGraphNode;
use chunking::content::collect;
use chunking::error::ChunkingError;
use chunking::graph::AvailabilityInfo;
use chunking::graph::Chunk;
use chunking::graph::ChunkItem;
use chunking::graph::ChunkItemInfo;
use chunking::graph::ChunkingContext;
use chunking::graph::ChunkingType;
use chunking::graph::ChunkingTypeOption;
use chunking::graph::Module;
use chunking::graph::ModuleGraph;
use chunking::graph::ModuleInfo;
use chunking::graph::ModuleReference;
use chunking::graph::ReferenceInfo;
use chunking::traversal::AdjacencyMap;
use chunking::traversal::GraphTraversalResult;
use chunking::visit::ChunkContentVisit;
use chunking::visit::VisitControlFlow;
use chunking::visit::MAX_CHUNK_ITEMS_COUNT;

fn context<'a>(
    graph: &'a ModuleGraph,
    chunking_context: &'a ChunkingContext,
    split: bool,
) -> ChunkContentContext<'a> {
    ChunkContentContext {
        graph,
        chunking_context,
        entry: Module(0),
        availability_info: AvailabilityInfo::Untracked,
        split,
    }
}

fn item_node(item: usize) -> ChunkContentGraphNode {
    ChunkContentGraphNode::ChunkItem { item: ChunkItem(item) }
}

#[test]
fn maximum_is_five_thousand() {
    assert_eq!(MAX_CHUNK_ITEMS_COUNT, 5000);
}

#[test]
fn edge_without_key_is_always_followed() {
    let graph = ModuleGraph::new();
    let policy = ChunkingContext::new();
    let mut visit = ChunkContentVisit::new(context(&graph, &policy, false));
    let node = ChunkContentGraphNode::PassthroughModule { asset: Module(1) };
    for _ in 0..3 {
        assert_eq!(visit.visit((None, node)), VisitControlFlow::Continue(node));
    }
    assert_eq!(visit.chunk_items_count, 0);
    assert!(visit.processed_assets.is_empty());
}

#[test]
fn key_is_followed_once_and_skipped_afterwards() {
    let graph = ModuleGraph::new();
    let policy = ChunkingContext::new();
    let mut visit = ChunkContentVisit::new(context(&graph, &policy, false));
    let key = Some((Module(1), ChunkingType::Placed));
    assert_eq!(visit.visit((key, item_node(1))), VisitControlFlow::Continue(item_node(1)));
    assert_eq!(visit.visit((key, item_node(1))), VisitControlFlow::Skip(item_node(1)));
    assert_eq!(visit.visit((key, item_node(2))), VisitControlFlow::Skip(item_node(2)));
    assert_eq!(visit.chunk_items_count, 1);
    assert_eq!(visit.processed_assets, vec![(ChunkingType::Placed, Module(1))]);
}

#[test]
fn same_module_under_another_chunking_type_is_another_key() {
    let graph = ModuleGraph::new();
    let policy = ChunkingContext::new();
    let mut visit = ChunkContentVisit::new(context(&graph, &policy, false));
    let placed = Some((Module(1), ChunkingType::Placed));
    let heuristic = Some((Module(1), ChunkingType::PlacedOrParallel));
    let other = Some((Module(2), ChunkingType::Placed));
    assert_eq!(visit.visit((placed, item_node(1))), VisitControlFlow::Continue(item_node(1)));
    assert_eq!(visit.visit((heuristic, item_node(1))), VisitControlFlow::Continue(item_node(1)));
    assert_eq!(visit.visit((other, item_node(2))), VisitControlFlow::Continue(item_node(2)));
    assert_eq!(visit.visit((heuristic, item_node(1))), VisitControlFlow::Skip(item_node(1)));
    assert_eq!(visit.chunk_items_count, 3);
    assert_eq!(visit.processed_assets.len(), 3);
}

#[test]
fn only_chunk_items_are_counted() {
    let graph = ModuleGraph::new();
    let policy = ChunkingContext::new();
    let mut visit = ChunkContentVisit::new(context(&graph, &policy, false));
    let chunk = ChunkContentGraphNode::Chunk(Chunk {
        item: ChunkItem(1),
        availability_info: AvailabilityInfo::Untracked,
    });
    let available = ChunkContentGraphNode::AvailableAsset(Module(2));
    assert_eq!(
        visit.visit((Some((Module(1), ChunkingType::Parallel)), chunk)),
        VisitControlFlow::Continue(chunk)
    );
    assert_eq!(
        visit.visit((Some((Module(2), ChunkingType::Placed)), available)),
        VisitControlFlow::Continue(available)
    );
    assert_eq!(visit.chunk_items_count, 0);
    assert_eq!(visit.processed_assets.len(), 2);
}

#[test]
fn walk_is_aborted_at_the_maximum_outside_split_mode() {
    let graph = ModuleGraph::new();
    let policy = ChunkingContext::new();
    let mut visit = ChunkContentVisit::new(context(&graph, &policy, false));
    for i in 0..4999 {
        let edge = (Some((Module(i), ChunkingType::Placed)), item_node(i));
        assert_eq!(visit.visit(edge), VisitControlFlow::Continue(item_node(i)));
    }
    assert_eq!(visit.chunk_items_count, 4999);
    // a key that was seen, a node that is no chunk item: no abort
    let seen = (Some((Module(7), ChunkingType::Placed)), item_node(7));
    assert_eq!(visit.visit(seen), VisitControlFlow::Skip(item_node(7)));
    let chunk = ChunkContentGraphNode::Chunk(Chunk {
        item: ChunkItem(1),
        availability_info: AvailabilityInfo::Untracked,
    });
    assert_eq!(
        visit.visit((Some((Module(1), ChunkingType::Parallel)), chunk)),
        VisitControlFlow::Continue(chunk)
    );
    let last = (Some((Module(4999), ChunkingType::Placed)), item_node(4999));
    assert_eq!(visit.visit(last), VisitControlFlow::Abort);
    assert_eq!(visit.chunk_items_count, 5000);
    assert_eq!(visit.processed_assets.len(), 5001);
}

#[test]
fn walk_is_never_aborted_in_split_mode() {
    let graph = ModuleGraph::new();
    let policy = ChunkingContext::new();
    let mut visit = ChunkContentVisit::new(context(&graph, &policy, true));
    for i in 0..5100 {
        let edge = (Some((Module(i), ChunkingType::Placed)), item_node(i));
        assert_eq!(visit.visit(edge), VisitControlFlow::Continue(item_node(i)));
    }
    assert_eq!(visit.chunk_items_count, 5100);
}

#[test]
fn followed_keys_are_pairwise_distinct() {
    let graph = ModuleGraph::new();
    let policy = ChunkingContext::new();
    let mut visit = ChunkContentVisit::new(context(&graph, &policy, true));
    let types = [ChunkingType::Placed, ChunkingType::Async, ChunkingType::Parallel];
    let mut followed = Vec::new();
    for round in 0..4 {
        for module in 0..5 {
            let key = (Module((module * 7 + round) % 5), types[(module + round) % 3]);
            if let VisitControlFlow::Continue(_) = visit.visit((Some(key), item_node(module))) {
                followed.push(key);
            }
        }
    }
    for i in 0..followed.len() {
        for j in 0..i {
            assert_ne!(followed[i], followed[j]);
        }
    }
    assert_eq!(followed.len(), visit.processed_assets.len());
}

/// Item 0 refers to modules 1 and 2 (placed), item 1 to module 2, item 2
/// back to module 0 and to something that is not chunkable.
fn small_graph() -> ModuleGraph {
    let mut graph = ModuleGraph::new();
    for i in 0..3 {
        graph.modules.push(ModuleInfo {
            ident: format!("m{}", i),
            references: vec![ModuleReference(9)],
            passthrough: false,
            chunk_item: Some(ChunkItem(i)),
            item: Some(ChunkItem(i)),
            async_item: None,
        });
    }
    let placed = |to: Vec<Module>| ReferenceInfo {
        chunking_type: Some(ChunkingTypeOption(Some(ChunkingType::Placed))),
        primary_modules: to,
    };
    graph.references.push(placed(vec![Module(1), Module(2)]));
    graph.references.push(placed(vec![Module(2)]));
    graph.references.push(placed(vec![Module(0)]));
    graph.references.push(placed(vec![Module(8)]));
    graph.chunk_items.push(ChunkItemInfo { ident: String::new(), references: vec![ModuleReference(0)] });
    graph.chunk_items.push(ChunkItemInfo { ident: String::new(), references: vec![ModuleReference(1)] });
    graph.chunk_items.push(ChunkItemInfo {
        ident: String::new(),
        references: vec![ModuleReference(2), ModuleReference(3)],
    });
    graph
}

#[test]
fn edges_of_a_chunk_item_are_those_of_the_item() {
    let graph = small_graph();
    let policy = ChunkingContext::new();
    let visit = ChunkContentVisit::new(context(&graph, &policy, false));
    assert_eq!(
        visit.edges(&item_node(0)).unwrap(),
        vec![
            (Some((Module(1), ChunkingType::Placed)), item_node(1)),
            (Some((Module(2), ChunkingType::Placed)), item_node(2)),
        ]
    );
    assert_eq!(
        visit.edges(&item_node(2)).unwrap(),
        vec![
            (Some((Module(0), ChunkingType::Placed)), item_node(0)),
            (None, ChunkContentGraphNode::ExternalModuleReference(ModuleReference(3))),
        ]
    );
    assert_eq!(visit.edges(&item_node(50)).unwrap(), vec![]);
}

#[test]
fn edges_of_a_passthrough_module_are_those_of_the_module() {
    let graph = small_graph();
    let policy = ChunkingContext::new();
    let visit = ChunkContentVisit::new(context(&graph, &policy, false));
    let node = ChunkContentGraphNode::PassthroughModule { asset: Module(1) };
    assert_eq!(
        visit.edges(&node).unwrap(),
        vec![(None, ChunkContentGraphNode::ExternalModuleReference(ModuleReference(9)))]
    );
    let unknown = ChunkContentGraphNode::PassthroughModule { asset: Module(50) };
    assert_eq!(visit.edges(&unknown).unwrap(), vec![]);
}

#[test]
fn other_nodes_have_no_edges() {
    let graph = small_graph();
    let policy = ChunkingContext::new();
    let visit = ChunkContentVisit::new(context(&graph, &policy, false));
    let chunk = ChunkContentGraphNode::Chunk(Chunk {
        item: ChunkItem(0),
        availability_info: AvailabilityInfo::Untracked,
    });
    for node in [
        chunk,
        ChunkContentGraphNode::AvailableAsset(Module(0)),
        ChunkContentGraphNode::ExternalModuleReference(ModuleReference(0)),
    ] {
        assert_eq!(visit.edges(&node).unwrap(), vec![]);
    }
}

#[test]
fn edges_fail_with_the_first_reference_that_fails() {
    let mut graph = small_graph();
    graph.modules[1].item = None;
    graph.modules[2].item = None;
    graph.chunk_items[0].references = vec![ModuleReference(1), ModuleReference(0)];
    let policy = ChunkingContext::new();
    let visit = ChunkContentVisit::new(context(&graph, &policy, false));
    assert_eq!(
        visit.edges(&item_node(0)).unwrap_err(),
        ChunkingError::CannotBePlaced { module: Module(2), ident: "m2".to_string() }
    );
}

fn walk(graph: &ModuleGraph, split: bool) -> AdjacencyMap {
    let policy = ChunkingContext::new();
    let visit = ChunkContentVisit::new(context(graph, &policy, split));
    let roots = vec![(Some((Module(0), ChunkingType::Placed)), item_node(0))];
    match AdjacencyMap::new().visit(roots, visit) {
        GraphTraversalResult::Completed(Ok(map)) => map,
        other => panic!("walk did not run to its end: {:?}", other),
    }
}

#[test]
fn walk_records_roots_and_successors() {
    let graph = small_graph();
    let map = walk(&graph, false);
    assert_eq!(map.roots, vec![item_node(0)]);
    assert_eq!(map.nodes, vec![item_node(0), item_node(1), item_node(2)]);
    let external = ChunkContentGraphNode::ExternalModuleReference(ModuleReference(3));
    assert_eq!(
        map.successors,
        vec![
            vec![item_node(1), item_node(2)],
            vec![item_node(2)],
            vec![item_node(0), external],
        ]
    );
}

#[test]
fn reverse_topological_order_hands_out_a_node_after_what_it_leads_to() {
    let graph = small_graph();
    let order = walk(&graph, false).into_reverse_topological();
    let external = ChunkContentGraphNode::ExternalModuleReference(ModuleReference(3));
    // 0 -> 1 -> 2 -> (0, external); 2 leads back to 0, so 0 stays last.
    assert_eq!(order, vec![external, item_node(2), item_node(1), item_node(0)]);
}

#[test]
fn reverse_topological_order_of_nothing_is_empty() {
    assert_eq!(AdjacencyMap::new().into_reverse_topological(), vec![]);
}

#[test]
fn reverse_topological_order_of_a_map_written_by_hand() {
    let a = item_node(1);
    let b = item_node(2);
    let c = ChunkContentGraphNode::AvailableAsset(Module(3));
    let d = item_node(4);
    let map = AdjacencyMap {
        roots: vec![a, d, a],
        nodes: vec![a, b, d],
        successors: vec![vec![b, c], vec![c, a, b], vec![]],
    };
    assert_eq!(map.into_reverse_topological(), vec![c, b, a, d]);
}

#[test]
fn walk_without_roots_records_nothing() {
    let graph = small_graph();
    let policy = ChunkingContext::new();
    let visit = ChunkContentVisit::new(context(&graph, &policy, false));
    match AdjacencyMap::new().visit(vec![], visit) {
        GraphTraversalResult::Completed(Ok(map)) => {
            assert!(map.roots.is_empty());
            assert!(map.nodes.is_empty());
            assert!(map.successors.is_empty());
        }
        other => panic!("walk did not run to its end: {:?}", other),
    }
}

#[test]
fn walk_reports_the_error_of_the_classifier() {
    let mut graph = small_graph();
    graph.modules[2].item = None;
    let policy = ChunkingContext::new();
    let visit = ChunkContentVisit::new(context(&graph, &policy, false));
    let roots = vec![(Some((Module(0), ChunkingType::Placed)), item_node(0))];
    match AdjacencyMap::new().visit(roots, visit) {
        GraphTraversalResult::Completed(Err(error)) => assert_eq!(
            error,
            ChunkingError::CannotBePlaced { module: Module(2), ident: "m2".to_string() }
        ),
        other => panic!("no error: {:?}", other),
    }
}

#[test]
fn collect_sorts_nodes_into_three_lists() {
    let chunk = Chunk { item: ChunkItem(5), availability_info: AvailabilityInfo::Untracked };
    let nodes = vec![
        ChunkContentGraphNode::ExternalModuleReference(ModuleReference(2)),
        item_node(3),
        ChunkContentGraphNode::AvailableAsset(Module(1)),
        ChunkContentGraphNode::Chunk(chunk),
        ChunkContentGraphNode::PassthroughModule { asset: Module(4) },
        item_node(1),
        ChunkContentGraphNode::ExternalModuleReference(ModuleReference(0)),
    ];
    let availability_info = AvailabilityInfo::Root { current_availability_root: Module(9) };
    let content = collect(nodes, availability_info);
    assert_eq!(content.chunk_items, vec![ChunkItem(3), ChunkItem(1)]);
    assert_eq!(content.chunks, vec![chunk]);
    assert_eq!(
        content.external_module_references,
        vec![ModuleReference(2), ModuleReference(0)]
    );
    assert_eq!(content.availability_info, availability_info);
}
