use chunking::classify::classify_module;
use chunking::classify::reference_to_graph_nodes;
use chunking::classify::ChunkContentContext;
use chunking::classify::ChunkContentGraphNode;
use chunking::classify::Classified;
use chunking::error::ChunkingError;
use chunking::graph::AvailabilityInfo;
use chunking::graph::AvailableModules;
use chunking::graph::Chunk;
use chunking::graph::ChunkItem;
use chunking::graph::ChunkItemInfo;
use chunking::graph::ChunkingContext;
use chunking::graph::ChunkingType;
use chunking::graph::ChunkingTypeOption;
use chunking::graph::Chunks;
use chunking::graph::Module;
use chunking::graph::ModuleGraph;
use chunking::graph::ModuleInfo;
use chunking::graph::ModuleReference;
use chunking::graph::ReferenceInfo;
use chunking::module_id::ModuleId;

const ALL_TYPES: [ChunkingType; 5] = [
    ChunkingType::Placed,
    ChunkingType::PlacedOrParallel,
    ChunkingType::Parallel,
    ChunkingType::IsolatedParallel,
    ChunkingType::Async,
];

/// Module 0 is the entry; module 1 is an ordinary chunkable module with an
/// item and a loader; module 2 is a passthrough module; module 3 is not
/// chunkable; module 4 is chunkable but the factory makes nothing of it.
fn sample_graph() -> ModuleGraph {
    let plain = |ident: &str| ModuleInfo {
        ident: ident.to_string(),
        references: Vec::new(),
        passthrough: false,
        chunk_item: None,
        item: None,
        async_item: None,
    };
    let mut graph = ModuleGraph::new();
    graph.modules.push(ModuleInfo {
        chunk_item: Some(ChunkItem(0)),
        item: Some(ChunkItem(0)),
        ..plain("entry")
    });
    graph.modules.push(ModuleInfo {
        chunk_item: Some(ChunkItem(10)),
        item: Some(ChunkItem(11)),
        async_item: Some(ChunkItem(12)),
        ..plain("ordinary")
    });
    graph.modules.push(ModuleInfo {
        passthrough: true,
        chunk_item: Some(ChunkItem(20)),
        item: Some(ChunkItem(21)),
        async_item: Some(ChunkItem(22)),
        ..plain("passthrough")
    });
    graph.modules.push(ModuleInfo {
        item: Some(ChunkItem(31)),
        async_item: Some(ChunkItem(32)),
        ..plain("not chunkable")
    });
    graph.modules.push(ModuleInfo { chunk_item: Some(ChunkItem(40)), ..plain("no item") });
    graph.chunk_items.push(ChunkItemInfo { ident: String::new(), references: Vec::new() });
    graph.available_modules.push(vec![Module(1), Module(2), Module(3), Module(9)]);
    graph
}

fn context<'a>(
    graph: &'a ModuleGraph,
    chunking_context: &'a ChunkingContext,
    availability_info: AvailabilityInfo,
    split: bool,
) -> ChunkContentContext<'a> {
    ChunkContentContext { graph, chunking_context, entry: Module(0), availability_info, split }
}

fn node_of(classified: Classified) -> (Option<(Module, ChunkingType)>, ChunkContentGraphNode) {
    match classified {
        Classified::Node(key, node) => (key, node),
        other => panic!("no node: {:?}", other),
    }
}

#[test]
fn default_chunking_type_is_placed_or_parallel() {
    assert_eq!(ChunkingType::default(), ChunkingType::PlacedOrParallel);
}

#[test]
fn empty_chunks_holds_nothing() {
    assert_eq!(Chunks::empty(), Chunks(vec![]));
}

#[test]
fn availability_info_tells_its_set_and_its_root() {
    let untracked = AvailabilityInfo::Untracked;
    assert_eq!(untracked.available_modules(), None);
    assert_eq!(untracked.current_availability_root(), None);
    let root = AvailabilityInfo::Root { current_availability_root: Module(3) };
    assert_eq!(root.available_modules(), None);
    assert_eq!(root.current_availability_root(), Some(Module(3)));
    let complete = AvailabilityInfo::Complete {
        available_modules: AvailableModules(4),
        current_availability_root: Module(5),
    };
    assert_eq!(complete.available_modules(), Some(AvailableModules(4)));
    assert_eq!(complete.current_availability_root(), Some(Module(5)));
}

#[test]
fn graph_answers_for_known_and_unknown_handles() {
    let graph = sample_graph();
    assert_eq!(graph.ident(Module(1)), "ordinary");
    assert_eq!(graph.ident(Module(99)), "");
    assert!(graph.is_passthrough(Module(2)));
    assert!(!graph.is_passthrough(Module(1)));
    assert!(!graph.is_passthrough(Module(99)));
    assert_eq!(graph.as_chunk_item(Module(1)), Some(ChunkItem(10)));
    assert_eq!(graph.as_chunk_item(Module(3)), None);
    assert_eq!(graph.as_chunk_item(Module(99)), None);
    assert_eq!(graph.from_asset(Module(1)), Some(ChunkItem(11)));
    assert_eq!(graph.from_asset(Module(4)), None);
    assert_eq!(graph.from_asset(Module(99)), None);
    assert_eq!(
        graph.from_async_asset(Module(1), AvailabilityInfo::Untracked),
        Some(ChunkItem(12))
    );
    assert_eq!(graph.from_async_asset(Module(4), AvailabilityInfo::Untracked), None);
    assert_eq!(graph.from_async_asset(Module(99), AvailabilityInfo::Untracked), None);
    assert!(graph.includes(AvailableModules(0), Module(9)));
    assert!(!graph.includes(AvailableModules(0), Module(0)));
    assert!(!graph.includes(AvailableModules(1), Module(9)));
}

#[test]
fn only_a_complete_availability_makes_modules_available() {
    let graph = sample_graph();
    let complete = AvailabilityInfo::Complete {
        available_modules: AvailableModules(0),
        current_availability_root: Module(0),
    };
    assert!(graph.is_available(complete, Module(1)));
    assert!(!graph.is_available(complete, Module(4)));
    assert!(!graph.is_available(AvailabilityInfo::Untracked, Module(1)));
    let root = AvailabilityInfo::Root { current_availability_root: Module(1) };
    assert!(!graph.is_available(root, Module(1)));
}

#[test]
fn chunking_type_of_a_reference() {
    let mut graph = ModuleGraph::new();
    graph.references.push(ReferenceInfo { chunking_type: None, primary_modules: vec![] });
    graph.references.push(ReferenceInfo {
        chunking_type: Some(ChunkingTypeOption(None)),
        primary_modules: vec![],
    });
    graph.references.push(ReferenceInfo {
        chunking_type: Some(ChunkingTypeOption(Some(ChunkingType::Async))),
        primary_modules: vec![],
    });
    assert_eq!(graph.chunking_type(ModuleReference(0)), None);
    assert_eq!(graph.chunking_type(ModuleReference(1)), None);
    assert_eq!(graph.chunking_type(ModuleReference(2)), Some(ChunkingType::Async));
    assert_eq!(graph.chunking_type(ModuleReference(3)), None);
}

#[test]
fn chunking_context_knows_the_pairs_it_was_given() {
    let context = ChunkingContext { same_chunk: vec![(Module(0), Module(1)), (Module(2), Module(2))], chunk_item_ids: vec![] };
    assert!(context.can_be_in_same_chunk(Module(0), Module(1)));
    assert!(!context.can_be_in_same_chunk(Module(1), Module(0)));
    assert!(context.can_be_in_same_chunk(Module(2), Module(2)));
    assert!(!ChunkingContext::new().can_be_in_same_chunk(Module(0), Module(0)));
}

#[test]
fn available_module_gives_an_available_asset_under_every_chunking_type() {
    let graph = sample_graph();
    let policy = ChunkingContext::new();
    let complete = AvailabilityInfo::Complete {
        available_modules: AvailableModules(0),
        current_availability_root: Module(0),
    };
    let ctx = context(&graph, &policy, complete, false);
    // ordinary, passthrough, not chunkable and unknown modules alike
    for module in [Module(1), Module(2), Module(3), Module(9)] {
        for chunking_type in ALL_TYPES {
            assert_eq!(
                node_of(classify_module(ctx, chunking_type, module)),
                (Some((module, chunking_type)), ChunkContentGraphNode::AvailableAsset(module))
            );
        }
    }
}

#[test]
fn passthrough_module_gives_a_node_without_key_under_every_chunking_type() {
    let graph = sample_graph();
    let policy = ChunkingContext::new();
    let ctx = context(&graph, &policy, AvailabilityInfo::Untracked, false);
    for chunking_type in ALL_TYPES {
        assert_eq!(
            node_of(classify_module(ctx, chunking_type, Module(2))),
            (None, ChunkContentGraphNode::PassthroughModule { asset: Module(2) })
        );
    }
}

#[test]
fn module_that_is_not_chunkable_is_external_under_every_chunking_type() {
    let graph = sample_graph();
    let policy = ChunkingContext::new();
    let ctx = context(&graph, &policy, AvailabilityInfo::Untracked, false);
    for module in [Module(3), Module(99)] {
        for chunking_type in ALL_TYPES {
            assert!(matches!(classify_module(ctx, chunking_type, module), Classified::External));
        }
    }
}

#[test]
fn placed_module_gives_the_item_of_the_factory() {
    let graph = sample_graph();
    let policy = ChunkingContext::new();
    let ctx = context(&graph, &policy, AvailabilityInfo::Untracked, true);
    assert_eq!(
        node_of(classify_module(ctx, ChunkingType::Placed, Module(1))),
        (
            Some((Module(1), ChunkingType::Placed)),
            ChunkContentGraphNode::ChunkItem { item: ChunkItem(11) }
        )
    );
    assert!(matches!(
        classify_module(ctx, ChunkingType::Placed, Module(4)),
        Classified::CannotBePlaced
    ));
}

#[test]
fn parallel_module_gives_a_chunk_with_the_availability_of_the_caller() {
    let graph = sample_graph();
    let policy = ChunkingContext { same_chunk: vec![(Module(0), Module(1))], chunk_item_ids: vec![] };
    let availability_info = AvailabilityInfo::Root { current_availability_root: Module(0) };
    let ctx = context(&graph, &policy, availability_info, false);
    assert_eq!(
        node_of(classify_module(ctx, ChunkingType::Parallel, Module(1))),
        (
            Some((Module(1), ChunkingType::Parallel)),
            ChunkContentGraphNode::Chunk(Chunk { item: ChunkItem(10), availability_info })
        )
    );
}

#[test]
fn isolated_parallel_module_gives_a_chunk_rooted_at_the_module() {
    let graph = sample_graph();
    let policy = ChunkingContext::new();
    let expected = (
        Some((Module(4), ChunkingType::IsolatedParallel)),
        ChunkContentGraphNode::Chunk(Chunk {
            item: ChunkItem(40),
            availability_info: AvailabilityInfo::Root { current_availability_root: Module(4) },
        }),
    );
    let complete = AvailabilityInfo::Complete {
        available_modules: AvailableModules(0),
        current_availability_root: Module(0),
    };
    for availability_info in [
        AvailabilityInfo::Untracked,
        AvailabilityInfo::Root { current_availability_root: Module(0) },
        complete,
    ] {
        let ctx = context(&graph, &policy, availability_info, false);
        assert_eq!(
            node_of(classify_module(ctx, ChunkingType::IsolatedParallel, Module(4))),
            expected
        );
    }
}

#[test]
fn placed_or_parallel_module_is_placed_only_where_all_three_conditions_hold() {
    let graph = sample_graph();
    let key = Some((Module(1), ChunkingType::PlacedOrParallel));
    let placed = (key, ChunkContentGraphNode::ChunkItem { item: ChunkItem(11) });
    let chunk = (
        key,
        ChunkContentGraphNode::Chunk(Chunk {
            item: ChunkItem(10),
            availability_info: AvailabilityInfo::Untracked,
        }),
    );
    let allowed = ChunkingContext { same_chunk: vec![(Module(0), Module(1)), (Module(0), Module(4))], chunk_item_ids: vec![] };
    let refused = ChunkingContext { same_chunk: vec![(Module(1), Module(0))], chunk_item_ids: vec![] };
    let classify = |policy: &ChunkingContext, split: bool, module: Module| {
        let ctx = context(&graph, policy, AvailabilityInfo::Untracked, split);
        node_of(classify_module(ctx, ChunkingType::PlacedOrParallel, module))
    };
    assert_eq!(classify(&allowed, false, Module(1)), placed);
    assert_eq!(classify(&allowed, true, Module(1)), chunk);
    assert_eq!(classify(&refused, false, Module(1)), chunk);
    assert_eq!(classify(&refused, true, Module(1)), chunk);
    // allowed, but the factory makes no item
    assert_eq!(
        classify(&allowed, false, Module(4)),
        (
            Some((Module(4), ChunkingType::PlacedOrParallel)),
            ChunkContentGraphNode::Chunk(Chunk {
                item: ChunkItem(40),
                availability_info: AvailabilityInfo::Untracked,
            })
        )
    );
}

#[test]
fn async_module_gives_the_loader_or_is_external() {
    let graph = sample_graph();
    let policy = ChunkingContext::new();
    let ctx = context(&graph, &policy, AvailabilityInfo::Untracked, false);
    assert_eq!(
        node_of(classify_module(ctx, ChunkingType::Async, Module(1))),
        (
            Some((Module(1), ChunkingType::Async)),
            ChunkContentGraphNode::ChunkItem { item: ChunkItem(12) }
        )
    );
    assert!(matches!(classify_module(ctx, ChunkingType::Async, Module(4)), Classified::External));
}

fn reference(graph: &mut ModuleGraph, chunking_type: ChunkingType, to: Vec<Module>) -> ModuleReference {
    graph.references.push(ReferenceInfo {
        chunking_type: Some(ChunkingTypeOption(Some(chunking_type))),
        primary_modules: to,
    });
    ModuleReference(graph.references.len() - 1)
}

#[test]
fn reference_gives_the_nodes_of_its_modules_in_order() {
    let mut graph = sample_graph();
    let r = reference(&mut graph, ChunkingType::Parallel, vec![Module(4), Module(2), Module(1), Module(4)]);
    let policy = ChunkingContext::new();
    let ctx = context(&graph, &policy, AvailabilityInfo::Untracked, false);
    let chunk = |item: usize| {
        ChunkContentGraphNode::Chunk(Chunk {
            item: ChunkItem(item),
            availability_info: AvailabilityInfo::Untracked,
        })
    };
    assert_eq!(
        reference_to_graph_nodes(ctx, r).unwrap(),
        vec![
            (Some((Module(4), ChunkingType::Parallel)), chunk(40)),
            (None, ChunkContentGraphNode::PassthroughModule { asset: Module(2) }),
            (Some((Module(1), ChunkingType::Parallel)), chunk(10)),
            (Some((Module(4), ChunkingType::Parallel)), chunk(40)),
        ]
    );
}

#[test]
fn reference_without_modules_gives_nothing() {
    let mut graph = sample_graph();
    let r = reference(&mut graph, ChunkingType::Placed, vec![]);
    let policy = ChunkingContext::new();
    let ctx = context(&graph, &policy, AvailabilityInfo::Untracked, false);
    assert_eq!(reference_to_graph_nodes(ctx, r).unwrap(), vec![]);
}

#[test]
fn reference_is_external_as_a_whole_once_a_module_is_not_chunkable() {
    let mut graph = sample_graph();
    let r = reference(&mut graph, ChunkingType::Placed, vec![Module(1), Module(3), Module(4)]);
    let policy = ChunkingContext::new();
    let ctx = context(&graph, &policy, AvailabilityInfo::Untracked, false);
    // Module 3 stops the classification before module 4 could fail it.
    assert_eq!(
        reference_to_graph_nodes(ctx, r).unwrap(),
        vec![(None, ChunkContentGraphNode::ExternalModuleReference(r))]
    );
}

#[test]
fn reference_fails_at_the_first_module_that_cannot_be_placed() {
    let mut graph = sample_graph();
    let r = reference(&mut graph, ChunkingType::Placed, vec![Module(1), Module(4), Module(3)]);
    let policy = ChunkingContext::new();
    let ctx = context(&graph, &policy, AvailabilityInfo::Untracked, false);
    assert_eq!(
        reference_to_graph_nodes(ctx, r).unwrap_err(),
        ChunkingError::CannotBePlaced { module: Module(4), ident: "no item".to_string() }
    );
}

#[test]
fn async_reference_without_loader_is_external_as_a_whole() {
    let mut graph = sample_graph();
    let r = reference(&mut graph, ChunkingType::Async, vec![Module(1), Module(4)]);
    let policy = ChunkingContext::new();
    let ctx = context(&graph, &policy, AvailabilityInfo::Untracked, false);
    assert_eq!(
        reference_to_graph_nodes(ctx, r).unwrap(),
        vec![(None, ChunkContentGraphNode::ExternalModuleReference(r))]
    );
}

#[test]
fn reference_that_is_unknown_or_not_chunkable_is_external() {
    let mut graph = sample_graph();
    graph.references.push(ReferenceInfo { chunking_type: None, primary_modules: vec![Module(1)] });
    graph.references.push(ReferenceInfo {
        chunking_type: Some(ChunkingTypeOption(None)),
        primary_modules: vec![Module(1)],
    });
    let policy = ChunkingContext::new();
    let ctx = context(&graph, &policy, AvailabilityInfo::Untracked, false);
    for r in [ModuleReference(0), ModuleReference(1), ModuleReference(2)] {
        assert_eq!(
            reference_to_graph_nodes(ctx, r).unwrap(),
            vec![(None, ChunkContentGraphNode::ExternalModuleReference(r))]
        );
    }
}

#[test]
fn available_module_is_pruned_before_it_could_fail_the_reference() {
    let mut graph = sample_graph();
    graph.available_modules.push(vec![Module(4)]);
    let r = reference(&mut graph, ChunkingType::Placed, vec![Module(4)]);
    let policy = ChunkingContext::new();
    let complete = AvailabilityInfo::Complete {
        available_modules: AvailableModules(1),
        current_availability_root: Module(0),
    };
    let ctx = context(&graph, &policy, complete, false);
    assert_eq!(
        reference_to_graph_nodes(ctx, r).unwrap(),
        vec![(
            Some((Module(4), ChunkingType::Placed)),
            ChunkContentGraphNode::AvailableAsset(Module(4))
        )]
    );
}

#[test]
fn chunk_item_has_the_module_id_that_the_context_assigns() {
    let context = ChunkingContext {
        same_chunk: vec![],
        chunk_item_ids: vec![ModuleId::Number(7), ModuleId::String("src/a.js".to_string())],
    };
    assert_eq!(context.chunk_item_id(ChunkItem(0)), Some(ModuleId::Number(7)));
    assert_eq!(ChunkItem(0).id(&context), Some(ModuleId::Number(7)));
    assert_eq!(ChunkItem(1).id(&context), Some(ModuleId::String("src/a.js".to_string())));
    assert_eq!(ChunkItem(2).id(&context), None);
    assert_eq!(ChunkItem(0).id(&ChunkingContext::new()), None);
}
