//! The module graph that chunk-content construction reads: handles for
//! modules, references, chunk items and chunks, and the tables that say what
//! each handle stands for.

use vstd::prelude::*;

use crate::module_id::ModuleId;
use crate::module_id::ModuleIdView;

verus! {

/// Handle of a module of the build graph. Two handles name the same module
/// exactly when they are equal.
#[derive(Copy, Clone, Debug, Hash, PartialEq, Eq, Structural)]
pub struct Module(pub usize);

/// Handle of a reference from a module or chunk item to other modules.
#[derive(Copy, Clone, Debug, Hash, PartialEq, Eq, Structural)]
pub struct ModuleReference(pub usize);

/// Handle of a chunk item: a module prepared for inclusion in a chunk.
#[derive(Copy, Clone, Debug, Hash, PartialEq, Eq, Structural)]
pub struct ChunkItem(pub usize);

/// Handle of a set of modules that are already available to a chunk group.
#[derive(Copy, Clone, Debug, Hash, PartialEq, Eq, Structural)]
pub struct AvailableModules(pub usize);

/// Specifies how a chunk interacts with other chunks when building a chunk
/// group.
#[derive(Copy, Clone, Debug, Hash, PartialEq, Eq, Structural)]
pub enum ChunkingType {
    /// Asset is always placed into the referencing chunk and loaded with it.
    Placed,
    /// A heuristic determines if the asset is placed into the referencing
    /// chunk or in a separate chunk that is loaded in parallel.
    PlacedOrParallel,
    /// Asset is always placed in a separate chunk that is loaded in parallel.
    Parallel,
    /// Asset is always placed in a separate chunk that is loaded in parallel.
    /// Referenced asset will not inherit the available modules, but form a
    /// new availability root.
    IsolatedParallel,
    /// An async loader is placed into the referencing chunk and loads the
    /// separate chunk group in which the asset is placed.
    Async,
}

impl Default for ChunkingType {
    fn default() -> (r: Self)
        ensures
            r == ChunkingType::PlacedOrParallel,
    {
        ChunkingType::PlacedOrParallel
    }
}

/// The chunking type that a chunkable reference reports, if it reports one.
#[derive(Copy, Clone, Debug, Hash, PartialEq, Eq)]
pub struct ChunkingTypeOption(pub Option<ChunkingType>);

/// What is known to be loaded before a chunk group runs.
#[derive(Copy, Clone, Debug, Hash, PartialEq, Eq, Structural)]
pub enum AvailabilityInfo {
    /// Availability is not tracked.
    Untracked,
    /// The chunk group starts at this module and nothing else is available.
    Root { current_availability_root: Module },
    /// A set of modules is available.
    Complete { available_modules: AvailableModules, current_availability_root: Module },
}

impl AvailabilityInfo {
    /// The set of available modules, where one is tracked.
    pub open spec fn spec_available_modules(self) -> Option<AvailableModules> {
        match self {
            AvailabilityInfo::Untracked => None,
            AvailabilityInfo::Root { .. } => None,
            AvailabilityInfo::Complete { available_modules, .. } => Some(available_modules),
        }
    }

    /// The module at which the current chunk group starts, where known.
    pub open spec fn spec_current_availability_root(self) -> Option<Module> {
        match self {
            AvailabilityInfo::Untracked => None,
            AvailabilityInfo::Root { current_availability_root } => Some(
                current_availability_root,
            ),
            AvailabilityInfo::Complete { current_availability_root, .. } => Some(
                current_availability_root,
            ),
        }
    }

    /// The set of available modules, where one is tracked.
    pub fn available_modules(&self) -> (r: Option<AvailableModules>)
        ensures
            r == self.spec_available_modules(),
    {
        match self {
            AvailabilityInfo::Untracked => None,
            AvailabilityInfo::Root { .. } => None,
            AvailabilityInfo::Complete { available_modules, .. } => Some(*available_modules),
        }
    }

    /// The module at which the current chunk group starts, where known.
    pub fn current_availability_root(&self) -> (r: Option<Module>)
        ensures
            r == self.spec_current_availability_root(),
    {
        match self {
            AvailabilityInfo::Untracked => None,
            AvailabilityInfo::Root { current_availability_root } => Some(
                *current_availability_root,
            ),
            AvailabilityInfo::Complete { current_availability_root, .. } => Some(
                *current_availability_root,
            ),
        }
    }
}

/// A chunk: the chunk item it was assembled for and the availability that
/// its own content is computed with.
#[derive(Copy, Clone, Debug, Hash, PartialEq, Eq, Structural)]
pub struct Chunk {
    pub item: ChunkItem,
    pub availability_info: AvailabilityInfo,
}

/// A list of chunks.
#[derive(Clone, Debug, PartialEq, Eq)]
pub struct Chunks(pub Vec<Chunk>);

impl Chunks {
    /// Creates a new empty list of chunks.
    pub fn empty() -> (r: Self)
        ensures
            r.0@ == Seq::<Chunk>::empty(),
    {
        Chunks(Vec::new())
    }
}

/// A list of chunk items.
#[derive(Clone, Debug, PartialEq, Eq)]
pub struct ChunkItems(pub Vec<ChunkItem>);

/// What the graph records of one module.
#[derive(Clone, Debug)]
pub struct ModuleInfo {
    /// Human-readable name of the module.
    pub ident: String,
    /// The references that leave the module.
    pub references: Vec<ModuleReference>,
    /// Whether the module is a passthrough module: not emitted itself, but
    /// its references are followed.
    pub passthrough: bool,
    /// The chunk item of a chunkable module; `None` where the module cannot
    /// be converted into a chunk.
    pub chunk_item: Option<ChunkItem>,
    /// The item that the item factory makes of the module; `None` where the
    /// factory cannot produce one.
    pub item: Option<ChunkItem>,
    /// The loader item that the item factory makes for loading the module
    /// asynchronously; `None` where the factory cannot produce one.
    pub async_item: Option<ChunkItem>,
}

/// What the graph records of one reference.
#[derive(Clone, Debug)]
pub struct ReferenceInfo {
    /// `None` for a reference that is not chunkable; otherwise the chunking
    /// type it reports.
    pub chunking_type: Option<ChunkingTypeOption>,
    /// The modules that the reference resolves to, in resolution order.
    pub primary_modules: Vec<Module>,
}

/// What the graph records of one chunk item.
#[derive(Clone, Debug)]
pub struct ChunkItemInfo {
    /// Human-readable name of the module that the chunk item was made of.
    /// It names the item where the walk is traced.
    pub ident: String,
    /// The references that leave the chunk item. They may differ from those
    /// of the module it was made of.
    pub references: Vec<ModuleReference>,
}

/// The module graph. A handle is an index into the table of its kind; a
/// handle beyond the end of its table stands for something with no
/// capabilities and no references.
#[derive(Clone, Debug)]
pub struct ModuleGraph {
    pub modules: Vec<ModuleInfo>,
    pub references: Vec<ReferenceInfo>,
    pub chunk_items: Vec<ChunkItemInfo>,
    pub available_modules: Vec<Vec<Module>>,
}

impl ModuleGraph {
    /// The references that leave a module.
    pub open spec fn spec_references(&self, module: Module) -> Seq<ModuleReference> {
        if module.0 < self.modules.len() {
            self.modules[module.0 as int].references@
        } else {
            Seq::empty()
        }
    }

    /// The name of a module; empty for an unknown module.
    pub open spec fn spec_ident(&self, module: Module) -> Seq<char> {
        if module.0 < self.modules.len() {
            self.modules[module.0 as int].ident@
        } else {
            Seq::empty()
        }
    }

    /// Whether a module is a passthrough module.
    pub open spec fn spec_is_passthrough(&self, module: Module) -> bool {
        module.0 < self.modules.len() && self.modules[module.0 as int].passthrough
    }

    /// The chunk item of a chunkable module.
    pub open spec fn spec_as_chunk_item(&self, module: Module) -> Option<ChunkItem> {
        if module.0 < self.modules.len() {
            self.modules[module.0 as int].chunk_item
        } else {
            None
        }
    }

    /// The item that the item factory makes of a module.
    pub open spec fn spec_from_asset(&self, module: Module) -> Option<ChunkItem> {
        if module.0 < self.modules.len() {
            self.modules[module.0 as int].item
        } else {
            None
        }
    }

    /// The loader item that the item factory makes of a module.
    pub open spec fn spec_from_async_asset(&self, module: Module) -> Option<ChunkItem> {
        if module.0 < self.modules.len() {
            self.modules[module.0 as int].async_item
        } else {
            None
        }
    }

    /// The references that leave a chunk item.
    pub open spec fn spec_item_references(&self, item: ChunkItem) -> Seq<ModuleReference> {
        if item.0 < self.chunk_items.len() {
            self.chunk_items[item.0 as int].references@
        } else {
            Seq::empty()
        }
    }

    /// The name of the module that a chunk item was made of; empty for an
    /// unknown chunk item.
    pub open spec fn spec_asset_ident(&self, item: ChunkItem) -> Seq<char> {
        if item.0 < self.chunk_items.len() {
            self.chunk_items[item.0 as int].ident@
        } else {
            Seq::empty()
        }
    }

    /// The chunking type of a reference: `None` where the reference is not
    /// chunkable or reports no type.
    pub open spec fn spec_chunking_type(&self, reference: ModuleReference) -> Option<
        ChunkingType,
    > {
        if reference.0 < self.references.len() {
            match self.references[reference.0 as int].chunking_type {
                Some(option) => option.0,
                None => None,
            }
        } else {
            None
        }
    }

    /// The modules that a reference resolves to.
    pub open spec fn spec_primary_modules(&self, reference: ModuleReference) -> Seq<Module> {
        if reference.0 < self.references.len() {
            self.references[reference.0 as int].primary_modules@
        } else {
            Seq::empty()
        }
    }

    /// Whether a set of available modules holds a module.
    pub open spec fn spec_includes(&self, set: AvailableModules, module: Module) -> bool {
        set.0 < self.available_modules.len() && self.available_modules[set.0 as int]@.contains(
            module,
        )
    }

    /// Whether a module is available under the given availability.
    pub open spec fn spec_is_available(
        &self,
        availability_info: AvailabilityInfo,
        module: Module,
    ) -> bool {
        match availability_info.spec_available_modules() {
            Some(set) => self.spec_includes(set, module),
            None => false,
        }
    }

    /// An empty graph.
    pub fn new() -> (r: Self)
        ensures
            r.modules@.len() == 0,
            r.references@.len() == 0,
            r.chunk_items@.len() == 0,
            r.available_modules@.len() == 0,
    {
        ModuleGraph {
            modules: Vec::new(),
            references: Vec::new(),
            chunk_items: Vec::new(),
            available_modules: Vec::new(),
        }
    }

    /// The name of a module; empty for an unknown module.
    pub fn ident(&self, module: Module) -> (r: String)
        ensures
            r@ == self.spec_ident(module),
    {
        if module.0 < self.modules.len() {
            self.modules[module.0].ident.clone()
        } else {
            String::new()
        }
    }

    /// The name of the module that a chunk item was made of; empty for an
    /// unknown chunk item.
    pub fn asset_ident(&self, item: ChunkItem) -> (r: String)
        ensures
            r@ == self.spec_asset_ident(item),
    {
        if item.0 < self.chunk_items.len() {
            self.chunk_items[item.0].ident.clone()
        } else {
            String::new()
        }
    }

    /// Whether a module is a passthrough module.
    pub fn is_passthrough(&self, module: Module) -> (r: bool)
        ensures
            r == self.spec_is_passthrough(module),
    {
        module.0 < self.modules.len() && self.modules[module.0].passthrough
    }

    /// The chunk item of a chunkable module; `None` where the module is not
    /// chunkable.
    pub fn as_chunk_item(&self, module: Module) -> (r: Option<ChunkItem>)
        ensures
            r == self.spec_as_chunk_item(module),
    {
        if module.0 < self.modules.len() {
            self.modules[module.0].chunk_item
        } else {
            None
        }
    }

    /// The item that the item factory makes of a module; `None` where it
    /// cannot produce one.
    pub fn from_asset(&self, module: Module) -> (r: Option<ChunkItem>)
        ensures
            r == self.spec_from_asset(module),
    {
        if module.0 < self.modules.len() {
            self.modules[module.0].item
        } else {
            None
        }
    }

    /// The loader item that the item factory makes for loading a module
    /// asynchronously; `None` where it cannot produce one. The graph records
    /// one loader for a module, whatever the availability it is asked with.
    pub fn from_async_asset(&self, module: Module, availability_info: AvailabilityInfo) -> (r:
        Option<ChunkItem>)
        ensures
            r == self.spec_from_async_asset(module),
    {
        if module.0 < self.modules.len() {
            self.modules[module.0].async_item
        } else {
            None
        }
    }

    /// The chunking type of a reference: `None` where the reference is not
    /// chunkable or reports no type.
    pub fn chunking_type(&self, reference: ModuleReference) -> (r: Option<ChunkingType>)
        ensures
            r == self.spec_chunking_type(reference),
    {
        if reference.0 < self.references.len() {
            match self.references[reference.0].chunking_type {
                Some(option) => option.0,
                None => None,
            }
        } else {
            None
        }
    }

    /// Whether a set of available modules holds a module.
    pub fn includes(&self, set: AvailableModules, module: Module) -> (r: bool)
        ensures
            r == self.spec_includes(set, module),
    {
        if set.0 >= self.available_modules.len() {
            return false;
        }
        let members = &self.available_modules[set.0];
        let mut i: usize = 0;
        while i < members.len()
            invariant
                i <= members.len(),
                set.0 < self.available_modules.len(),
                members@ == self.available_modules[set.0 as int]@,
                forall|j: int| 0 <= j < i ==> members@[j] != module,
            decreases members.len() - i,
        {
            if members[i] == module {
                assert(members@[i as int] == module);
                return true;
            }
            i += 1;
        }
        false
    }

    /// Whether a module is available under the given availability.
    pub fn is_available(&self, availability_info: AvailabilityInfo, module: Module) -> (r: bool)
        ensures
            r == self.spec_is_available(availability_info, module),
    {
        match availability_info.available_modules() {
            Some(set) => self.includes(set, module),
            None => false,
        }
    }
}

/// The policy of a chunking context: which modules may share a chunk, and
/// which module id each chunk item has.
#[derive(Clone, Debug)]
pub struct ChunkingContext {
    /// The pairs `(a, b)` for which module `b` may be placed in the chunk of
    /// module `a`.
    pub same_chunk: Vec<(Module, Module)>,
    /// The module id of each chunk item, by the handle of the item.
    pub chunk_item_ids: Vec<ModuleId>,
}

impl ChunkItem {
    /// The module id of this chunk item; `None` where the context assigns
    /// none to it.
    pub fn id(self, chunking_context: &ChunkingContext) -> (r: Option<ModuleId>)
        ensures
            r.is_some() == chunking_context.spec_chunk_item_id(self).is_some(),
            r matches Some(id) ==> chunking_context.spec_chunk_item_id(self) == Some(id@),
    {
        chunking_context.chunk_item_id(self)
    }
}

impl ChunkingContext {
    /// Whether `candidate` may be placed in the chunk of `entry`.
    pub open spec fn spec_can_be_in_same_chunk(&self, entry: Module, candidate: Module) -> bool {
        self.same_chunk@.contains((entry, candidate))
    }

    /// The module id that the context assigns to a chunk item.
    pub open spec fn spec_chunk_item_id(&self, item: ChunkItem) -> Option<ModuleIdView> {
        if item.0 < self.chunk_item_ids.len() {
            Some(self.chunk_item_ids[item.0 as int]@)
        } else {
            None
        }
    }

    /// A context that lets no two modules share a chunk and assigns no
    /// module ids.
    pub fn new() -> (r: Self)
        ensures
            r.same_chunk@.len() == 0,
            r.chunk_item_ids@.len() == 0,
    {
        ChunkingContext { same_chunk: Vec::new(), chunk_item_ids: Vec::new() }
    }

    /// The module id that the context assigns to a chunk item; `None` where
    /// it assigns none.
    pub fn chunk_item_id(&self, item: ChunkItem) -> (r: Option<ModuleId>)
        ensures
            r.is_some() == self.spec_chunk_item_id(item).is_some(),
            r matches Some(id) ==> self.spec_chunk_item_id(item) == Some(id@),
    {
        if item.0 < self.chunk_item_ids.len() {
            Some(
                match &self.chunk_item_ids[item.0] {
                    ModuleId::Number(i) => ModuleId::Number(*i),
                    ModuleId::String(s) => ModuleId::String(s.clone()),
                },
            )
        } else {
            None
        }
    }

    /// Whether `candidate` may be placed in the chunk of `entry`.
    pub fn can_be_in_same_chunk(&self, entry: Module, candidate: Module) -> (r: bool)
        ensures
            r == self.spec_can_be_in_same_chunk(entry, candidate),
    {
        let mut i: usize = 0;
        while i < self.same_chunk.len()
            invariant
                i <= self.same_chunk.len(),
                forall|j: int| 0 <= j < i ==> self.same_chunk@[j] != (entry, candidate),
            decreases self.same_chunk.len() - i,
        {
            if self.same_chunk[i].0 == entry && self.same_chunk[i].1 == candidate {
                return true;
            }
            i += 1;
        }
        false
    }
}

} // verus!
