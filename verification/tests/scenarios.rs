use chunking::content::chunk_content;
use chunking::content::chunk_content_internal;
use chunking::content::chunk_content_split;
use chunking::error::ChunkingError;
use chunking::graph::AvailabilityInfo;
use chunking::graph::AvailableModules;
use chunking::graph::Chunk;
use chunking::graph::ChunkItem;
use chunking::graph::ChunkItemInfo;
use chunking::graph::ChunkingContext;
use chunking::graph::ChunkingType;
use chunking::graph::ChunkingTypeOption;
use chunking::graph::Module;
use chunking::graph::ModuleGraph;
use chunking::graph::ModuleInfo;
use chunking::graph::ModuleReference;
use chunking::graph::ReferenceInfo;

/// Adds a chunkable module whose item has the handle of the module, and
/// returns the module's handle.
fn add_module(graph: &mut ModuleGraph, ident: &str) -> Module {
    let index = graph.modules.len();
    graph.modules.push(ModuleInfo {
        ident: ident.to_string(),
        references: Vec::new(),
        passthrough: false,
        chunk_item: Some(ChunkItem(index)),
        item: Some(ChunkItem(index)),
        async_item: None,
    });
    graph.chunk_items.push(ChunkItemInfo { ident: ident.to_string(), references: Vec::new() });
    Module(index)
}

/// Adds a chunkable reference from `from` (both the module and its item) to
/// `to`, and returns the reference's handle.
fn add_reference(
    graph: &mut ModuleGraph,
    from: Module,
    chunking_type: ChunkingType,
    to: Vec<Module>,
) -> ModuleReference {
    let reference = ModuleReference(graph.references.len());
    graph.references.push(ReferenceInfo {
        chunking_type: Some(ChunkingTypeOption(Some(chunking_type))),
        primary_modules: to,
    });
    graph.modules[from.0].references.push(reference);
    graph.chunk_items[from.0].references.push(reference);
    reference
}

fn item(module: Module) -> ChunkItem {
    ChunkItem(module.0)
}

#[test]
fn single_entry_without_references() {
    let mut graph = ModuleGraph::new();
    let e = add_module(&mut graph, "E");
    let context = ChunkingContext::new();
    let content = chunk_content(&graph, &context, e, None, AvailabilityInfo::Untracked)
        .unwrap()
        .unwrap();
    assert_eq!(content.chunk_items, vec![item(e)]);
    assert_eq!(content.chunks, vec![]);
    assert_eq!(content.external_module_references, vec![]);
    assert_eq!(content.availability_info, AvailabilityInfo::Untracked);
}

#[test]
fn placed_chain_lists_the_leaf_first() {
    let mut graph = ModuleGraph::new();
    let e = add_module(&mut graph, "E");
    let a = add_module(&mut graph, "A");
    let b = add_module(&mut graph, "B");
    add_reference(&mut graph, e, ChunkingType::Placed, vec![a]);
    add_reference(&mut graph, a, ChunkingType::Placed, vec![b]);
    let context = ChunkingContext::new();
    let content = chunk_content(&graph, &context, e, None, AvailabilityInfo::Untracked)
        .unwrap()
        .unwrap();
    assert_eq!(content.chunk_items, vec![item(b), item(a), item(e)]);
    assert_eq!(content.chunks, vec![]);
    assert_eq!(content.external_module_references, vec![]);
}

#[test]
fn parallel_reference_gives_a_sibling_chunk() {
    let mut graph = ModuleGraph::new();
    let e = add_module(&mut graph, "E");
    let a = add_module(&mut graph, "A");
    add_reference(&mut graph, e, ChunkingType::Parallel, vec![a]);
    let context = ChunkingContext::new();
    let availability_info = AvailabilityInfo::Root { current_availability_root: e };
    let content = chunk_content(&graph, &context, e, None, availability_info).unwrap().unwrap();
    assert_eq!(content.chunk_items, vec![item(e)]);
    assert_eq!(content.chunks, vec![Chunk { item: item(a), availability_info }]);
    assert_eq!(content.external_module_references, vec![]);
    assert_eq!(content.availability_info, availability_info);
}

#[test]
fn async_reference_places_the_loader() {
    let mut graph = ModuleGraph::new();
    let e = add_module(&mut graph, "E");
    let a = add_module(&mut graph, "A");
    let loader = ChunkItem(77);
    graph.modules[a.0].async_item = Some(loader);
    add_reference(&mut graph, e, ChunkingType::Async, vec![a]);
    let context = ChunkingContext::new();
    let content = chunk_content(&graph, &context, e, None, AvailabilityInfo::Untracked)
        .unwrap()
        .unwrap();
    assert_eq!(content.chunk_items, vec![loader, item(e)]);
    assert_eq!(content.chunks, vec![]);
    assert_eq!(content.external_module_references, vec![]);
}

#[test]
fn async_reference_without_loader_stays_external() {
    let mut graph = ModuleGraph::new();
    let e = add_module(&mut graph, "E");
    let a = add_module(&mut graph, "A");
    let reference = add_reference(&mut graph, e, ChunkingType::Async, vec![a]);
    let context = ChunkingContext::new();
    let content = chunk_content(&graph, &context, e, None, AvailabilityInfo::Untracked)
        .unwrap()
        .unwrap();
    assert_eq!(content.chunk_items, vec![item(e)]);
    assert_eq!(content.chunks, vec![]);
    assert_eq!(content.external_module_references, vec![reference]);
}

#[test]
fn available_module_is_pruned_with_all_behind_it() {
    let mut graph = ModuleGraph::new();
    let e = add_module(&mut graph, "E");
    let a = add_module(&mut graph, "A");
    let b = add_module(&mut graph, "B");
    add_reference(&mut graph, e, ChunkingType::Placed, vec![a]);
    add_reference(&mut graph, a, ChunkingType::Placed, vec![b]);
    graph.available_modules.push(vec![a]);
    let context = ChunkingContext::new();
    let availability_info = AvailabilityInfo::Complete {
        available_modules: AvailableModules(0),
        current_availability_root: e,
    };
    let content = chunk_content(&graph, &context, e, None, availability_info).unwrap().unwrap();
    assert_eq!(content.chunk_items, vec![item(e)]);
    assert_eq!(content.chunks, vec![]);
    assert_eq!(content.external_module_references, vec![]);
}

/// An entry with `fan_out` placed modules behind it, one reference each.
fn fan_out_graph(fan_out: usize) -> (ModuleGraph, Module) {
    let mut graph = ModuleGraph::new();
    let e = add_module(&mut graph, "E");
    for i in 0..fan_out {
        let m = add_module(&mut graph, &format!("M{}", i));
        add_reference(&mut graph, e, ChunkingType::Placed, vec![m]);
    }
    (graph, e)
}

#[test]
fn chunk_that_grows_too_large_is_given_up_without_splitting() {
    let (graph, e) = fan_out_graph(6000);
    let context = ChunkingContext::new();
    let content = chunk_content(&graph, &context, e, None, AvailabilityInfo::Untracked).unwrap();
    assert!(content.is_none());
}

#[test]
fn chunk_that_grows_too_large_is_computed_with_splitting() {
    let (graph, e) = fan_out_graph(6000);
    let context = ChunkingContext::new();
    let content =
        chunk_content_split(&graph, &context, e, None, AvailabilityInfo::Untracked).unwrap();
    assert_eq!(content.chunk_items.len(), 6001);
    assert_eq!(content.chunk_items[0], ChunkItem(1));
    assert_eq!(content.chunk_items[5999], ChunkItem(6000));
    assert_eq!(content.chunk_items[6000], item(e));
    assert_eq!(content.chunks, vec![]);
    assert_eq!(content.external_module_references, vec![]);
}

#[test]
fn largest_chunk_that_is_not_given_up_has_one_item_less_than_the_maximum() {
    let (graph, e) = fan_out_graph(4998);
    let context = ChunkingContext::new();
    let content = chunk_content(&graph, &context, e, None, AvailabilityInfo::Untracked)
        .unwrap()
        .unwrap();
    assert_eq!(content.chunk_items.len(), 4999);

    let (graph, e) = fan_out_graph(4999);
    let content = chunk_content(&graph, &context, e, None, AvailabilityInfo::Untracked).unwrap();
    assert!(content.is_none());
    let content =
        chunk_content_split(&graph, &context, e, None, AvailabilityInfo::Untracked).unwrap();
    assert_eq!(content.chunk_items.len(), 5000);
}

#[test]
fn splitting_gives_the_same_content_where_nothing_is_placed_by_the_heuristic() {
    let mut graph = ModuleGraph::new();
    let e = add_module(&mut graph, "E");
    let a = add_module(&mut graph, "A");
    let b = add_module(&mut graph, "B");
    let c = add_module(&mut graph, "C");
    add_reference(&mut graph, e, ChunkingType::Placed, vec![a, b]);
    add_reference(&mut graph, a, ChunkingType::Parallel, vec![c]);
    add_reference(&mut graph, b, ChunkingType::PlacedOrParallel, vec![c]);
    let context = ChunkingContext::new();
    let first = chunk_content(&graph, &context, e, None, AvailabilityInfo::Untracked)
        .unwrap()
        .unwrap();
    let second =
        chunk_content_split(&graph, &context, e, None, AvailabilityInfo::Untracked).unwrap();
    assert_eq!(first.chunk_items, second.chunk_items);
    assert_eq!(first.chunks, second.chunks);
    assert_eq!(first.external_module_references, second.external_module_references);
    assert_eq!(first.availability_info, second.availability_info);
    assert_eq!(first.chunk_items, vec![item(a), item(b), item(e)]);
    assert_eq!(
        first.chunks,
        vec![Chunk { item: item(c), availability_info: AvailabilityInfo::Untracked }]
    );
}

#[test]
fn heuristic_places_a_module_only_without_splitting() {
    let mut graph = ModuleGraph::new();
    let e = add_module(&mut graph, "E");
    let a = add_module(&mut graph, "A");
    add_reference(&mut graph, e, ChunkingType::PlacedOrParallel, vec![a]);
    let context = ChunkingContext { same_chunk: vec![(e, a)], chunk_item_ids: vec![] };
    let first = chunk_content(&graph, &context, e, None, AvailabilityInfo::Untracked)
        .unwrap()
        .unwrap();
    assert_eq!(first.chunk_items, vec![item(a), item(e)]);
    assert_eq!(first.chunks, vec![]);
    let second =
        chunk_content_split(&graph, &context, e, None, AvailabilityInfo::Untracked).unwrap();
    assert_eq!(second.chunk_items, vec![item(e)]);
    assert_eq!(
        second.chunks,
        vec![Chunk { item: item(a), availability_info: AvailabilityInfo::Untracked }]
    );
}

#[test]
fn heuristic_falls_back_to_a_chunk() {
    let mut graph = ModuleGraph::new();
    let e = add_module(&mut graph, "E");
    let a = add_module(&mut graph, "A");
    let b = add_module(&mut graph, "B");
    graph.modules[b.0].item = None;
    add_reference(&mut graph, e, ChunkingType::PlacedOrParallel, vec![a, b]);
    // `a` may not share a chunk with the entry; `b` may, but has no item.
    let context = ChunkingContext { same_chunk: vec![(a, e), (e, b)], chunk_item_ids: vec![] };
    let content = chunk_content(&graph, &context, e, None, AvailabilityInfo::Untracked)
        .unwrap()
        .unwrap();
    assert_eq!(content.chunk_items, vec![item(e)]);
    assert_eq!(
        content.chunks,
        vec![
            Chunk { item: item(a), availability_info: AvailabilityInfo::Untracked },
            Chunk { item: item(b), availability_info: AvailabilityInfo::Untracked },
        ]
    );
}

#[test]
fn isolated_parallel_chunk_starts_a_new_availability_root() {
    let mut graph = ModuleGraph::new();
    let e = add_module(&mut graph, "E");
    let a = add_module(&mut graph, "A");
    add_reference(&mut graph, e, ChunkingType::IsolatedParallel, vec![a]);
    graph.available_modules.push(vec![]);
    let context = ChunkingContext::new();
    let availability_info = AvailabilityInfo::Complete {
        available_modules: AvailableModules(0),
        current_availability_root: e,
    };
    let content = chunk_content(&graph, &context, e, None, availability_info).unwrap().unwrap();
    assert_eq!(content.chunk_items, vec![item(e)]);
    assert_eq!(
        content.chunks,
        vec![Chunk {
            item: item(a),
            availability_info: AvailabilityInfo::Root { current_availability_root: a },
        }]
    );
    assert_eq!(content.availability_info, availability_info);
}

#[test]
fn placed_module_without_item_is_an_error() {
    let mut graph = ModuleGraph::new();
    let e = add_module(&mut graph, "E");
    let a = add_module(&mut graph, "lib/a.js");
    graph.modules[a.0].item = None;
    add_reference(&mut graph, e, ChunkingType::Placed, vec![a]);
    let context = ChunkingContext::new();
    let error = chunk_content(&graph, &context, e, None, AvailabilityInfo::Untracked).unwrap_err();
    assert_eq!(
        error,
        ChunkingError::CannotBePlaced { module: a, ident: "lib/a.js".to_string() }
    );
    let error =
        chunk_content_split(&graph, &context, e, None, AvailabilityInfo::Untracked).unwrap_err();
    assert_eq!(
        error,
        ChunkingError::CannotBePlaced { module: a, ident: "lib/a.js".to_string() }
    );
}

#[test]
fn error_behind_a_longer_path_is_found() {
    let mut graph = ModuleGraph::new();
    let e = add_module(&mut graph, "E");
    let a = add_module(&mut graph, "A");
    let b = add_module(&mut graph, "B");
    graph.modules[b.0].item = None;
    add_reference(&mut graph, e, ChunkingType::Placed, vec![a]);
    add_reference(&mut graph, a, ChunkingType::Placed, vec![b]);
    let context = ChunkingContext::new();
    let error = chunk_content(&graph, &context, e, None, AvailabilityInfo::Untracked).unwrap_err();
    assert_eq!(error, ChunkingError::CannotBePlaced { module: b, ident: "B".to_string() });
}

#[test]
fn reference_that_is_not_chunkable_stays_external() {
    let mut graph = ModuleGraph::new();
    let e = add_module(&mut graph, "E");
    let a = add_module(&mut graph, "A");
    let plain = ModuleReference(graph.references.len());
    graph.references.push(ReferenceInfo { chunking_type: None, primary_modules: vec![a] });
    graph.chunk_items[e.0].references.push(plain);
    let untyped = ModuleReference(graph.references.len());
    graph.references.push(ReferenceInfo {
        chunking_type: Some(ChunkingTypeOption(None)),
        primary_modules: vec![a],
    });
    graph.chunk_items[e.0].references.push(untyped);
    let unknown = ModuleReference(500);
    graph.chunk_items[e.0].references.push(unknown);
    let context = ChunkingContext::new();
    let content = chunk_content(&graph, &context, e, None, AvailabilityInfo::Untracked)
        .unwrap()
        .unwrap();
    assert_eq!(content.chunk_items, vec![item(e)]);
    assert_eq!(content.chunks, vec![]);
    assert_eq!(content.external_module_references, vec![plain, untyped, unknown]);
}

#[test]
fn module_that_is_not_chunkable_makes_the_whole_reference_external() {
    let mut graph = ModuleGraph::new();
    let e = add_module(&mut graph, "E");
    let a = add_module(&mut graph, "A");
    let b = add_module(&mut graph, "B");
    graph.modules[b.0].chunk_item = None;
    let reference = add_reference(&mut graph, e, ChunkingType::Placed, vec![a, b]);
    let context = ChunkingContext::new();
    let content = chunk_content(&graph, &context, e, None, AvailabilityInfo::Untracked)
        .unwrap()
        .unwrap();
    assert_eq!(content.chunk_items, vec![item(e)]);
    assert_eq!(content.external_module_references, vec![reference]);
}

#[test]
fn passthrough_module_is_left_out_and_walked_through() {
    let mut graph = ModuleGraph::new();
    let e = add_module(&mut graph, "E");
    let p = add_module(&mut graph, "P");
    let a = add_module(&mut graph, "A");
    let b = add_module(&mut graph, "B");
    graph.modules[p.0].passthrough = true;
    add_reference(&mut graph, e, ChunkingType::Placed, vec![p]);
    add_reference(&mut graph, e, ChunkingType::Placed, vec![b]);
    add_reference(&mut graph, p, ChunkingType::Placed, vec![a]);
    let context = ChunkingContext::new();
    let through = chunk_content(&graph, &context, e, None, AvailabilityInfo::Untracked)
        .unwrap()
        .unwrap();
    assert_eq!(through.chunk_items, vec![item(a), item(b), item(e)]);

    // The same graph with the references of `P` written at its place.
    let mut graph = ModuleGraph::new();
    let e = add_module(&mut graph, "E");
    let _p = add_module(&mut graph, "P");
    let a = add_module(&mut graph, "A");
    let b = add_module(&mut graph, "B");
    add_reference(&mut graph, e, ChunkingType::Placed, vec![a]);
    add_reference(&mut graph, e, ChunkingType::Placed, vec![b]);
    let inlined = chunk_content(&graph, &context, e, None, AvailabilityInfo::Untracked)
        .unwrap()
        .unwrap();
    assert_eq!(through.chunk_items, inlined.chunk_items);
    assert_eq!(through.chunks, inlined.chunks);
    assert_eq!(through.external_module_references, inlined.external_module_references);
}

#[test]
fn passthrough_modules_that_refer_to_each_other_end_the_walk() {
    let mut graph = ModuleGraph::new();
    let e = add_module(&mut graph, "E");
    let p = add_module(&mut graph, "P");
    let q = add_module(&mut graph, "Q");
    let a = add_module(&mut graph, "A");
    graph.modules[p.0].passthrough = true;
    graph.modules[q.0].passthrough = true;
    add_reference(&mut graph, e, ChunkingType::Placed, vec![p]);
    add_reference(&mut graph, p, ChunkingType::Placed, vec![q]);
    add_reference(&mut graph, q, ChunkingType::Placed, vec![p, a]);
    let context = ChunkingContext::new();
    let content = chunk_content(&graph, &context, e, None, AvailabilityInfo::Untracked)
        .unwrap()
        .unwrap();
    assert_eq!(content.chunk_items, vec![item(a), item(e)]);
}

#[test]
fn module_reached_twice_is_placed_once() {
    let mut graph = ModuleGraph::new();
    let e = add_module(&mut graph, "E");
    let a = add_module(&mut graph, "A");
    let b = add_module(&mut graph, "B");
    let c = add_module(&mut graph, "C");
    add_reference(&mut graph, e, ChunkingType::Placed, vec![a, b]);
    add_reference(&mut graph, a, ChunkingType::Placed, vec![c]);
    add_reference(&mut graph, b, ChunkingType::Placed, vec![c]);
    let context = ChunkingContext::new();
    let content = chunk_content(&graph, &context, e, None, AvailabilityInfo::Untracked)
        .unwrap()
        .unwrap();
    assert_eq!(content.chunk_items, vec![item(c), item(a), item(b), item(e)]);
}

#[test]
fn modules_that_refer_to_each_other_are_placed_once_each() {
    let mut graph = ModuleGraph::new();
    let e = add_module(&mut graph, "E");
    let a = add_module(&mut graph, "A");
    add_reference(&mut graph, e, ChunkingType::Placed, vec![a]);
    add_reference(&mut graph, a, ChunkingType::Placed, vec![e]);
    let context = ChunkingContext::new();
    let content = chunk_content(&graph, &context, e, None, AvailabilityInfo::Untracked)
        .unwrap()
        .unwrap();
    assert_eq!(content.chunk_items, vec![item(a), item(e)]);
}

#[test]
fn same_chunk_is_given_twice_where_two_kinds_of_reference_lead_to_it_once() {
    let mut graph = ModuleGraph::new();
    let e = add_module(&mut graph, "E");
    let a = add_module(&mut graph, "A");
    let first = add_reference(&mut graph, e, ChunkingType::Parallel, vec![a]);
    let _second = add_reference(&mut graph, e, ChunkingType::PlacedOrParallel, vec![a]);
    let _third = add_reference(&mut graph, e, ChunkingType::Parallel, vec![a]);
    assert_eq!(first, ModuleReference(0));
    let context = ChunkingContext::new();
    let content = chunk_content(&graph, &context, e, None, AvailabilityInfo::Untracked)
        .unwrap()
        .unwrap();
    assert_eq!(content.chunk_items, vec![item(e)]);
    assert_eq!(
        content.chunks,
        vec![Chunk { item: item(a), availability_info: AvailabilityInfo::Untracked }]
    );
}

#[test]
fn additional_entries_are_roots_too() {
    let mut graph = ModuleGraph::new();
    let e = add_module(&mut graph, "E");
    let f = add_module(&mut graph, "F");
    let a = add_module(&mut graph, "A");
    add_reference(&mut graph, f, ChunkingType::Placed, vec![a]);
    let context = ChunkingContext::new();
    let content =
        chunk_content(&graph, &context, e, Some(vec![f]), AvailabilityInfo::Untracked)
            .unwrap()
            .unwrap();
    assert_eq!(content.chunk_items, vec![item(e), item(a), item(f)]);
}

#[test]
fn entry_among_the_additional_entries_is_placed_once() {
    let mut graph = ModuleGraph::new();
    let e = add_module(&mut graph, "E");
    let context = ChunkingContext::new();
    let content =
        chunk_content(&graph, &context, e, Some(vec![e, e]), AvailabilityInfo::Untracked)
            .unwrap()
            .unwrap();
    assert_eq!(content.chunk_items, vec![item(e)]);
}

#[test]
fn item_may_have_other_references_than_its_module() {
    let mut graph = ModuleGraph::new();
    let e = add_module(&mut graph, "E");
    let a = add_module(&mut graph, "A");
    let b = add_module(&mut graph, "B");
    add_reference(&mut graph, e, ChunkingType::Placed, vec![a]);
    // The module of `E` refers to `A`; its item refers to `B` instead.
    let other = ModuleReference(graph.references.len());
    graph.references.push(ReferenceInfo {
        chunking_type: Some(ChunkingTypeOption(Some(ChunkingType::Placed))),
        primary_modules: vec![b],
    });
    graph.chunk_items[e.0].references = vec![other];
    let context = ChunkingContext::new();
    let content = chunk_content(&graph, &context, e, None, AvailabilityInfo::Untracked)
        .unwrap()
        .unwrap();
    assert_eq!(content.chunk_items, vec![item(b), item(e)]);
}

#[test]
fn internal_entry_point_takes_the_mode() {
    let (graph, e) = fan_out_graph(5200);
    let context = ChunkingContext::new();
    let given_up =
        chunk_content_internal(&graph, &context, e, None, AvailabilityInfo::Untracked, false)
            .unwrap();
    assert!(given_up.is_none());
    let content =
        chunk_content_internal(&graph, &context, e, None, AvailabilityInfo::Untracked, true)
            .unwrap()
            .unwrap();
    assert_eq!(content.chunk_items.len(), 5201);
}

#[test]
fn error_says_which_module_could_not_be_placed() {
    let error = ChunkingError::CannotBePlaced { module: Module(3), ident: "lib/a.js".to_string() };
    assert_eq!(
        error.to_string(),
        "Module lib/a.js was requested to be placed into the same chunk, but this wasn't possible"
    );
    let unnamed = ChunkingError::CannotBePlaced { module: Module(3), ident: String::new() };
    assert_eq!(
        unnamed.to_string(),
        "Module  was requested to be placed into the same chunk, but this wasn't possible"
    );
}

#[test]
fn chunk_item_is_named_after_its_module() {
    let mut graph = ModuleGraph::new();
    let e = add_module(&mut graph, "src/index.js");
    assert_eq!(graph.asset_ident(item(e)), "src/index.js");
    assert_eq!(graph.asset_ident(ChunkItem(40)), "");
}
