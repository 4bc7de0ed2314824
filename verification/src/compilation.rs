use std::collections::HashMap;
use std::collections::HashSet;
use vstd::hash_map::StringHashMap;
use crate::options::ChunkLoading;
use vstd::prelude::*;

verus! {

broadcast use vstd::std_specs::hash::group_hash_axioms;

/// A module, named by its position in the module graph.
pub type ModuleIdentifier = usize;

/// A chunk, named by its position in `Compilation::chunk_by_ukey`.
pub type ChunkUkey = usize;

/// A chunk group, named by its position in `Compilation::chunk_group_by_ukey`.
pub type ChunkGroupUkey = usize;

/// A dependency, named by its position in `ModuleGraph::dependency_modules`.
pub type DependencyId = usize;

/// A module of the module graph, with what code splitting reads and writes of it.
pub struct ModuleGraphModule {
    pub module_identifier: ModuleIdentifier,
    /// The name that a chunk split off at this module receives.
    pub chunk_name: String,
    /// The modules this one imports statically, in source order.
    pub dependencies: Vec<ModuleIdentifier>,
    /// The modules this one imports with `import()`, in source order.
    pub dynamic_dependencies: Vec<ModuleIdentifier>,
    pub pre_order_index: Option<usize>,
    pub post_order_index: Option<usize>,
}

/// The modules of a compilation and what each dependency resolved to.
pub struct ModuleGraph {
    pub modules: Vec<ModuleGraphModule>,
    /// For each dependency, the module it resolved to, if any.
    pub dependency_modules: Vec<Option<ModuleIdentifier>>,
}

impl ModuleGraph {
    /// Every module sits at its own identifier and refers only to modules of the graph.
    pub open spec fn wf(&self) -> bool {
        &&& forall|i: int|
            0 <= i < self.modules.len() ==> #[trigger] self.modules@[i].module_identifier == i
        &&& forall|i: int, j: int|
            0 <= i < self.modules.len() && 0 <= j < self.modules@[i].dependencies.len()
                ==> #[trigger] self.modules@[i].dependencies@[j] < self.modules.len()
        &&& forall|i: int, j: int|
            0 <= i < self.modules.len() && 0 <= j < self.modules@[i].dynamic_dependencies.len()
                ==> #[trigger] self.modules@[i].dynamic_dependencies@[j] < self.modules.len()
        &&& forall|d: int|
            0 <= d < self.dependency_modules.len() && (#[trigger] self.dependency_modules@[d]) is Some
                ==> self.dependency_modules@[d].unwrap() < self.modules.len()
    }

    pub open spec fn spec_module_by_dependency(&self, dep: DependencyId) -> Option<
        ModuleIdentifier,
    > {
        if dep < self.dependency_modules.len() {
            self.dependency_modules@[dep as int]
        } else {
            None
        }
    }

    /// The module that a dependency resolved to, if it resolved.
    pub fn module_by_dependency(&self, dep: DependencyId) -> (r: Option<ModuleIdentifier>)
        ensures
            r == self.spec_module_by_dependency(dep),
    {
        if dep < self.dependency_modules.len() {
            self.dependency_modules[dep]
        } else {
            None
        }
    }
}

/// The options of an entry.
#[derive(Clone, Debug)]
pub struct EntryOptions {
    /// The name of a separate runtime chunk for this entry, if it has one.
    pub runtime: Option<String>,
    pub chunk_loading: Option<ChunkLoading>,
    pub async_chunks: Option<bool>,
    pub public_path: Option<String>,
    pub base_uri: Option<String>,
}

/// An entry of the compilation.
pub struct EntryData {
    pub name: String,
    pub options: EntryOptions,
    pub dependencies: Vec<DependencyId>,
}

/// A chunk: an output unit that holds modules.
pub struct Chunk {
    pub ukey: ChunkUkey,
    pub name: Option<String>,
    pub id: Option<String>,
    /// The names of the runtimes this chunk runs in, each once.
    pub runtime: Vec<String>,
    /// The chunk groups that hold this chunk.
    pub groups: HashSet<ChunkGroupUkey>,
}

impl Chunk {
    /// The runtime names of the chunk, as a set.
    pub open spec fn runtime_names(&self) -> Set<Seq<char>> {
        Set::new(|r: Seq<char>| exists|i: int| 0 <= i < self.runtime.len() && #[trigger] self.runtime@[i]@ == r)
    }

    pub fn new(ukey: ChunkUkey, name: Option<String>, id: String) -> (chunk: Chunk)
        ensures
            chunk.ukey == ukey,
            chunk.name == name,
            chunk.id == Some(id),
            chunk.runtime@.len() == 0,
            chunk.groups@ == Set::<ChunkGroupUkey>::empty(),
    {
        Chunk { ukey, name, id: Some(id), runtime: Vec::new(), groups: HashSet::new() }
    }

    /// Adds a runtime name to the chunk, unless it is there already.
    pub fn add_runtime(&mut self, runtime: &String)
        ensures
            final(self).runtime_names() == old(self).runtime_names().insert(runtime@),
            final(self).ukey == old(self).ukey,
            final(self).name == old(self).name,
            final(self).id == old(self).id,
            final(self).groups == old(self).groups,
    {
        let mut i: usize = 0;
        while i < self.runtime.len()
            invariant
                i <= self.runtime.len(),
                forall|j: int| 0 <= j < i ==> self.runtime@[j]@ != runtime@,
            decreases self.runtime.len() - i,
        {
            if self.runtime[i] == *runtime {
                assert(old(self).runtime_names().insert(runtime@) =~= old(self).runtime_names());
                return ;
            }
            i = i + 1;
        }
        let ghost before = self.runtime@;
        self.runtime.push(runtime.clone());
        assert(self.runtime_names() =~= old(self).runtime_names().insert(runtime@)) by {
            assert(self.runtime@[before.len() as int]@ == runtime@);
            assert forall|r: Seq<char>| #[trigger] old(self).runtime_names().contains(r)
                implies self.runtime_names().contains(r) by {
                let j = choose|j: int| 0 <= j < before.len() && #[trigger] before[j]@ == r;
                assert(self.runtime@[j]@ == r);
            }
        }
    }
}

/// What kind of chunk group a group is.
#[derive(Clone, Copy, Debug, PartialEq, Eq)]
pub enum ChunkGroupKind {
    Entrypoint,
    Normal,
}

/// A group of chunks that are loaded together.
pub struct ChunkGroup {
    pub ukey: ChunkGroupUkey,
    pub kind: ChunkGroupKind,
    pub chunks: Vec<ChunkUkey>,
    pub module_pre_order_indices: HashMap<ModuleIdentifier, usize>,
    pub module_post_order_indices: HashMap<ModuleIdentifier, usize>,
    pub next_pre_order_index: usize,
    pub next_post_order_index: usize,
    pub parents: HashSet<ChunkGroupUkey>,
    pub children: HashSet<ChunkGroupUkey>,
    /// The runtime an entrypoint runs in: the entry's name.
    pub runtime: Option<String>,
    pub entry_point_chunk: Option<ChunkUkey>,
    pub runtime_chunk: Option<ChunkUkey>,
    pub name: Option<String>,
}

impl ChunkGroup {
    /// A new, empty group. An entrypoint runs in the runtime named after it.
    pub fn new(ukey: ChunkGroupUkey, kind: ChunkGroupKind, name: Option<String>) -> (group:
        ChunkGroup)
        ensures
            group.ukey == ukey,
            group.kind == kind,
            group.chunks@.len() == 0,
            group.module_pre_order_indices@ == Map::<ModuleIdentifier, usize>::empty(),
            group.module_post_order_indices@ == Map::<ModuleIdentifier, usize>::empty(),
            group.next_pre_order_index == 0,
            group.next_post_order_index == 0,
            group.parents@ == Set::<ChunkGroupUkey>::empty(),
            group.children@ == Set::<ChunkGroupUkey>::empty(),
            group.runtime == (if kind == ChunkGroupKind::Entrypoint {
                name
            } else {
                None
            }),
            group.entry_point_chunk is None,
            group.runtime_chunk is None,
            group.name == name,
    {
        let runtime = match kind {
            ChunkGroupKind::Entrypoint => match &name {
                Some(n) => Some(n.clone()),
                None => None,
            },
            ChunkGroupKind::Normal => None,
        };
        ChunkGroup {
            ukey,
            kind,
            chunks: Vec::new(),
            module_pre_order_indices: HashMap::new(),
            module_post_order_indices: HashMap::new(),
            next_pre_order_index: 0,
            next_post_order_index: 0,
            parents: HashSet::new(),
            children: HashSet::new(),
            runtime,
            entry_point_chunk: None,
            runtime_chunk: None,
            name,
        }
    }

    /// Appends a chunk to the group and records the group in the chunk.
    pub fn connect_chunk(&mut self, chunk: &mut Chunk)
        ensures
            final(self).chunks@ == old(self).chunks@.push(old(chunk).ukey),
            final(chunk).groups@ == old(chunk).groups@.insert(old(self).ukey),
            final(chunk).ukey == old(chunk).ukey,
            final(chunk).name == old(chunk).name,
            final(chunk).id == old(chunk).id,
            final(chunk).runtime == old(chunk).runtime,
            final(self).same_except_chunks(*old(self)),
    {
        self.chunks.push(chunk.ukey);
        chunk.groups.insert(self.ukey);
    }

    /// Every field but the chunk list is as in `other`.
    pub open spec fn same_except_chunks(&self, other: ChunkGroup) -> bool {
        &&& self.ukey == other.ukey
        &&& self.kind == other.kind
        &&& self.module_pre_order_indices == other.module_pre_order_indices
        &&& self.module_post_order_indices == other.module_post_order_indices
        &&& self.next_pre_order_index == other.next_pre_order_index
        &&& self.next_post_order_index == other.next_post_order_index
        &&& self.parents == other.parents
        &&& self.children == other.children
        &&& self.runtime == other.runtime
        &&& self.entry_point_chunk == other.entry_point_chunk
        &&& self.runtime_chunk == other.runtime_chunk
        &&& self.name == other.name
    }

    /// Every field but the list of child groups is as in `other`.
    pub open spec fn same_except_chunks_children(&self, other: ChunkGroup) -> bool {
        &&& self.ukey == other.ukey
        &&& self.kind == other.kind
        &&& self.chunks == other.chunks
        &&& self.module_pre_order_indices == other.module_pre_order_indices
        &&& self.module_post_order_indices == other.module_post_order_indices
        &&& self.next_pre_order_index == other.next_pre_order_index
        &&& self.next_post_order_index == other.next_post_order_index
        &&& self.parents == other.parents
        &&& self.runtime == other.runtime
        &&& self.entry_point_chunk == other.entry_point_chunk
        &&& self.runtime_chunk == other.runtime_chunk
        &&& self.name == other.name
    }

    /// The chunk list after moving `c` to the front: a chunk already in the list
    /// is moved there, another one is put there.
    pub open spec fn chunks_with_first(chunks: Seq<ChunkUkey>, c: ChunkUkey) -> Seq<ChunkUkey> {
        match chunks.index_of_first(c) {
            Some(i) => if i > 0 {
                seq![c] + chunks.remove(i)
            } else {
                chunks
            },
            None => seq![c] + chunks,
        }
    }

    /// Puts a chunk at the front of the group. Returns whether the chunk was new to the group,
    /// in which case the chunk records the group.
    pub fn unshift_chunk(&mut self, chunk: &mut Chunk) -> (inserted: bool)
        ensures
            inserted == !old(self).chunks@.contains(old(chunk).ukey),
            final(self).chunks@ == Self::chunks_with_first(old(self).chunks@, old(chunk).ukey),
            final(chunk).groups@ == (if inserted {
                old(chunk).groups@.insert(old(self).ukey)
            } else {
                old(chunk).groups@
            }),
            final(chunk).ukey == old(chunk).ukey,
            final(chunk).name == old(chunk).name,
            final(chunk).id == old(chunk).id,
            final(chunk).runtime == old(chunk).runtime,
            final(self).same_except_chunks(*old(self)),
    {
        let ukey = chunk.ukey;
        let mut i: usize = 0;
        while i < self.chunks.len()
            invariant
                i <= self.chunks.len(),
                *self == *old(self),
                *chunk == *old(chunk),
                ukey == old(chunk).ukey,
                forall|j: int| 0 <= j < i ==> self.chunks@[j] != ukey,
            decreases self.chunks.len() - i,
        {
            if self.chunks[i] == ukey {
                proof {
                    let s = self.chunks@;
                    s.index_of_first_ensures(ukey);
                    assert(s.contains(ukey)) by {
                        assert(s[i as int] == ukey);
                    }
                    let k = s.index_of_first(ukey).unwrap();
                    assert(k == i as int);
                }
                if i > 0 {
                    self.chunks.remove(i);
                    self.chunks.insert(0, ukey);
                    assert(self.chunks@ =~= seq![ukey] + old(self).chunks@.remove(i as int));
                }
                return false;
            }
            i = i + 1;
        }
        proof {
            old(self).chunks@.index_of_first_ensures(ukey);
        }
        assert(!old(self).chunks@.contains(ukey));
        self.chunks.insert(0, ukey);
        assert(self.chunks@ =~= seq![ukey] + old(self).chunks@);
        chunk.groups.insert(self.ukey);
        true
    }

    /// Records the chunk that holds the runtime of this group.
    pub fn set_runtime_chunk(&mut self, chunk: ChunkUkey)
        ensures
            final(self).runtime_chunk == Some(chunk),
            final(self).chunks == old(self).chunks,
            final(self).entry_point_chunk == old(self).entry_point_chunk,
            final(self).ukey == old(self).ukey,
            final(self).kind == old(self).kind,
            final(self).name == old(self).name,
            final(self).runtime == old(self).runtime,
            final(self).module_pre_order_indices == old(self).module_pre_order_indices,
            final(self).module_post_order_indices == old(self).module_post_order_indices,
            final(self).next_pre_order_index == old(self).next_pre_order_index,
            final(self).next_post_order_index == old(self).next_post_order_index,
            final(self).parents == old(self).parents,
            final(self).children == old(self).children,
    {
        self.runtime_chunk = Some(chunk);
    }

    /// Records the chunk that holds the entry modules of this group.
    pub fn set_entry_point_chunk(&mut self, chunk: ChunkUkey)
        ensures
            final(self).entry_point_chunk == Some(chunk),
            final(self).chunks == old(self).chunks,
            final(self).runtime_chunk == old(self).runtime_chunk,
            final(self).ukey == old(self).ukey,
            final(self).kind == old(self).kind,
            final(self).name == old(self).name,
            final(self).runtime == old(self).runtime,
            final(self).module_pre_order_indices == old(self).module_pre_order_indices,
            final(self).module_post_order_indices == old(self).module_post_order_indices,
            final(self).next_pre_order_index == old(self).next_pre_order_index,
            final(self).next_post_order_index == old(self).next_post_order_index,
            final(self).parents == old(self).parents,
            final(self).children == old(self).children,
    {
        self.entry_point_chunk = Some(chunk);
    }

    /// The chunk that holds the entry modules of this group.
    pub fn get_entry_point_chunk(&self) -> (chunk: ChunkUkey)
        requires
            self.entry_point_chunk is Some,
        ensures
            chunk == self.entry_point_chunk.unwrap(),
    {
        self.entry_point_chunk.unwrap()
    }
}

/// What the chunk graph records of a module.
pub struct ChunkGraphModule {
    pub entry_in_chunks: HashSet<ChunkUkey>,
    pub chunks: HashSet<ChunkUkey>,
}

/// What the chunk graph records of a chunk.
pub struct ChunkGraphChunk {
    /// The entry modules of the chunk, each with the entrypoint it starts.
    pub entry_modules: HashMap<ModuleIdentifier, ChunkGroupUkey>,
    pub modules: HashSet<ModuleIdentifier>,
}

/// Which modules are in which chunks, seen from both sides.
pub struct ChunkGraph {
    pub split_point_module_identifier_to_chunk_ukey: HashMap<ModuleIdentifier, ChunkUkey>,
    pub chunk_graph_module_by_module_identifier: HashMap<ModuleIdentifier, ChunkGraphModule>,
    pub chunk_graph_chunk_by_chunk_ukey: HashMap<ChunkUkey, ChunkGraphChunk>,
}

impl ChunkGraph {
    pub open spec fn has_chunk(&self, c: ChunkUkey) -> bool {
        self.chunk_graph_chunk_by_chunk_ukey@.contains_key(c)
    }

    pub open spec fn has_module(&self, m: ModuleIdentifier) -> bool {
        self.chunk_graph_module_by_module_identifier@.contains_key(m)
    }

    /// The modules in chunk `c`.
    pub open spec fn chunk_modules(&self, c: ChunkUkey) -> Set<ModuleIdentifier> {
        self.chunk_graph_chunk_by_chunk_ukey@[c].modules@
    }

    /// The entry modules of chunk `c`, each with its entrypoint.
    pub open spec fn entry_modules(&self, c: ChunkUkey) -> Map<ModuleIdentifier, ChunkGroupUkey> {
        self.chunk_graph_chunk_by_chunk_ukey@[c].entry_modules@
    }

    /// The chunks that hold module `m`.
    pub open spec fn module_chunks(&self, m: ModuleIdentifier) -> Set<ChunkUkey> {
        self.chunk_graph_module_by_module_identifier@[m].chunks@
    }

    /// The chunks that module `m` is an entry module of.
    pub open spec fn module_entry_chunks(&self, m: ModuleIdentifier) -> Set<ChunkUkey> {
        self.chunk_graph_module_by_module_identifier@[m].entry_in_chunks@
    }

    /// The split-point record of module `m`.
    pub open spec fn split_points(&self) -> Map<ModuleIdentifier, ChunkUkey> {
        self.split_point_module_identifier_to_chunk_ukey@
    }

    /// Whether module `m` is in chunk `c`.
    pub open spec fn contains(&self, c: ChunkUkey, m: ModuleIdentifier) -> bool {
        self.has_chunk(c) && self.chunk_modules(c).contains(m)
    }

    /// The graph speaks only of chunks below `num_chunks` and modules below `num_modules`,
    /// and both of its sides agree.
    pub open spec fn wf(&self, num_chunks: nat, num_modules: nat, num_groups: nat) -> bool {
        &&& forall|c: ChunkUkey| #[trigger] self.has_chunk(c) ==> c < num_chunks
        &&& forall|m: ModuleIdentifier| #[trigger] self.has_module(m) ==> m < num_modules
        &&& forall|c: ChunkUkey, m: ModuleIdentifier|
            self.has_chunk(c) && #[trigger] self.chunk_modules(c).contains(m) ==> {
                &&& self.has_module(m)
                &&& self.module_chunks(m).contains(c)
            }
        &&& forall|c: ChunkUkey, m: ModuleIdentifier|
            self.has_module(m) && #[trigger] self.module_chunks(m).contains(c) ==> {
                &&& self.has_chunk(c)
                &&& self.chunk_modules(c).contains(m)
            }
        &&& forall|c: ChunkUkey, m: ModuleIdentifier|
            self.has_chunk(c) && #[trigger] self.entry_modules(c).contains_key(m) ==> {
                &&& self.has_module(m)
                &&& self.entry_modules(c)[m] < num_groups
            }
        &&& forall|m: ModuleIdentifier, c: ChunkUkey|
            self.has_module(m) && #[trigger] self.module_entry_chunks(m).contains(c) ==> c
                < num_chunks
        &&& forall|m: ModuleIdentifier| #[trigger]
            self.split_points().contains_key(m) ==> m < num_modules && self.split_points()[m]
                < num_chunks
    }

    /// Every chunk below `num_chunks` has its record.
    pub open spec fn all_chunks_added(&self, num_chunks: nat) -> bool {
        forall|c: ChunkUkey| c < num_chunks ==> #[trigger] self.has_chunk(c)
    }

    /// An empty chunk graph.
    pub fn new() -> (graph: ChunkGraph)
        ensures
            graph.split_points() == Map::<ModuleIdentifier, ChunkUkey>::empty(),
            graph.chunk_graph_module_by_module_identifier@ == Map::<
                ModuleIdentifier,
                ChunkGraphModule,
            >::empty(),
            graph.chunk_graph_chunk_by_chunk_ukey@ == Map::<ChunkUkey, ChunkGraphChunk>::empty(),
    {
        ChunkGraph {
            split_point_module_identifier_to_chunk_ukey: HashMap::new(),
            chunk_graph_module_by_module_identifier: HashMap::new(),
            chunk_graph_chunk_by_chunk_ukey: HashMap::new(),
        }
    }

    /// Gives chunk `c` an empty record, unless it has one.
    pub fn add_chunk(&mut self, c: ChunkUkey)
        ensures
            final(self).chunk_graph_chunk_by_chunk_ukey@ == (if old(self).has_chunk(c) {
                old(self).chunk_graph_chunk_by_chunk_ukey@
            } else {
                old(self).chunk_graph_chunk_by_chunk_ukey@.insert(
                    c,
                    final(self).chunk_graph_chunk_by_chunk_ukey@[c],
                )
            }),
            !old(self).has_chunk(c) ==> final(self).chunk_modules(c) == Set::<
                ModuleIdentifier,
            >::empty() && final(self).entry_modules(c) == Map::<
                ModuleIdentifier,
                ChunkGroupUkey,
            >::empty(),
            final(self).chunk_graph_module_by_module_identifier
                == old(self).chunk_graph_module_by_module_identifier,
            final(self).split_point_module_identifier_to_chunk_ukey
                == old(self).split_point_module_identifier_to_chunk_ukey,
            final(self).has_chunk(c),
            forall|x: ChunkUkey| #[trigger] old(self).has_chunk(x) ==> final(self).has_chunk(x),
            forall|n: nat, nm: nat, ng: nat|
                old(self).wf(n, nm, ng) && c < n ==> #[trigger] final(self).wf(n, nm, ng),
    {
        if !self.chunk_graph_chunk_by_chunk_ukey.contains_key(&c) {
            self.chunk_graph_chunk_by_chunk_ukey.insert(
                c,
                ChunkGraphChunk { entry_modules: HashMap::new(), modules: HashSet::new() },
            );
        }
        proof {
            assert forall|n: nat, nm: nat, ng: nat|
                old(self).wf(n, nm, ng) && c < n implies #[trigger] self.wf(n, nm, ng) by {
                assert forall|x: ChunkUkey, y: ModuleIdentifier|
                    self.has_module(y) && #[trigger] self.module_chunks(y).contains(x) implies self.has_chunk(x) && self.chunk_modules(x).contains(y) by {
                    assert(old(self).module_chunks(y).contains(x));
                }
                assert forall|x: ChunkUkey, y: ModuleIdentifier|
                    self.has_chunk(x) && #[trigger] self.chunk_modules(x).contains(y) implies self.has_module(y) && self.module_chunks(y).contains(x) by {
                    if old(self).has_chunk(x) {
                        assert(old(self).chunk_modules(x).contains(y));
                    }
                }
                assert forall|x: ChunkUkey, y: ModuleIdentifier|
                    self.has_chunk(x) && #[trigger] self.entry_modules(x).contains_key(y) implies self.has_module(y) && self.entry_modules(x)[y] < ng by {
                    if old(self).has_chunk(x) {
                        assert(old(self).entry_modules(x).contains_key(y));
                    }
                }
                assert forall|y: ModuleIdentifier| #[trigger] self.has_module(y) implies y < nm by {
                    assert(old(self).has_module(y));
                }
                assert forall|y: ModuleIdentifier, x: ChunkUkey|
                    self.has_module(y) && #[trigger] self.module_entry_chunks(y).contains(x) implies x < n by {
                    assert(old(self).module_entry_chunks(y).contains(x));
                }
                assert forall|y: ModuleIdentifier| #[trigger] self.split_points().contains_key(y) implies y < nm && self.split_points()[y] < n by {
                    assert(old(self).split_points().contains_key(y));
                }
                assert forall|x: ChunkUkey| #[trigger] self.has_chunk(x) implies x < n by {
                    if x != c {
                        assert(old(self).has_chunk(x));
                    }
                }
                assert forall|y: ModuleIdentifier| #[trigger] self.has_module(y) implies y < nm by {
                    assert(old(self).has_module(y));
                }
            }
        }
    }

    /// A chunk graph that is well formed within some bounds is so within larger ones.
    pub proof fn lemma_wf_widen(&self, n: nat, nm: nat, ng: nat, n2: nat, ng2: nat)
        requires
            self.wf(n, nm, ng),
            n <= n2,
            ng <= ng2,
        ensures
            self.wf(n2, nm, ng2),
    {
    }

    /// Gives module `m` an empty record, unless it has one.
    pub fn add_module(&mut self, m: ModuleIdentifier)
        ensures
            final(self).chunk_graph_module_by_module_identifier@ == (if old(self).has_module(m) {
                old(self).chunk_graph_module_by_module_identifier@
            } else {
                old(self).chunk_graph_module_by_module_identifier@.insert(
                    m,
                    final(self).chunk_graph_module_by_module_identifier@[m],
                )
            }),
            !old(self).has_module(m) ==> final(self).module_chunks(m) == Set::<ChunkUkey>::empty()
                && final(self).module_entry_chunks(m) == Set::<ChunkUkey>::empty(),
            final(self).chunk_graph_chunk_by_chunk_ukey == old(self).chunk_graph_chunk_by_chunk_ukey,
            final(self).split_point_module_identifier_to_chunk_ukey
                == old(self).split_point_module_identifier_to_chunk_ukey,
            final(self).has_module(m),
            forall|y: ModuleIdentifier| #[trigger] old(self).has_module(y) ==> final(self).has_module(y)
                && final(self).module_chunks(y) == old(self).module_chunks(y)
                && final(self).module_entry_chunks(y) == old(self).module_entry_chunks(y),
            forall|n: nat, nm: nat, ng: nat|
                old(self).wf(n, nm, ng) && m < nm ==> #[trigger] final(self).wf(n, nm, ng),
    {
        if !self.chunk_graph_module_by_module_identifier.contains_key(&m) {
            self.chunk_graph_module_by_module_identifier.insert(
                m,
                ChunkGraphModule { entry_in_chunks: HashSet::new(), chunks: HashSet::new() },
            );
        }
        proof {
            assert forall|n: nat, nm: nat, ng: nat|
                old(self).wf(n, nm, ng) && m < nm implies #[trigger] self.wf(n, nm, ng) by {
                assert forall|x: ChunkUkey, y: ModuleIdentifier|
                    self.has_module(y) && #[trigger] self.module_chunks(y).contains(x) implies self.has_chunk(x) && self.chunk_modules(x).contains(y) by {
                    if old(self).has_module(y) {
                        assert(old(self).module_chunks(y).contains(x));
                    }
                }
                assert forall|x: ChunkUkey, y: ModuleIdentifier|
                    self.has_chunk(x) && #[trigger] self.chunk_modules(x).contains(y) implies self.has_module(y) && self.module_chunks(y).contains(x) by {
                    assert(old(self).chunk_modules(x).contains(y));
                }
                assert forall|x: ChunkUkey, y: ModuleIdentifier|
                    self.has_chunk(x) && #[trigger] self.entry_modules(x).contains_key(y) implies self.has_module(y) && self.entry_modules(x)[y] < ng by {
                    assert(old(self).entry_modules(x).contains_key(y));
                }
                assert forall|y: ModuleIdentifier| #[trigger] self.has_module(y) implies y < nm by {
                    if y != m {
                        assert(old(self).has_module(y));
                    }
                }
                assert forall|y: ModuleIdentifier, x: ChunkUkey|
                    self.has_module(y) && #[trigger] self.module_entry_chunks(y).contains(x) implies x < n by {
                    if old(self).has_module(y) {
                        assert(old(self).module_entry_chunks(y).contains(x));
                    }
                }
                assert forall|x: ChunkUkey| #[trigger] self.has_chunk(x) implies x < n by {
                    assert(old(self).has_chunk(x));
                }
                assert forall|y: ModuleIdentifier| #[trigger] self.split_points().contains_key(y) implies y < nm && self.split_points()[y] < n by {
                    assert(old(self).split_points().contains_key(y));
                }
            }
        }
    }

    /// Records that module `m` should start a chunk `c` when it is split off.
    pub fn set_split_point(&mut self, m: ModuleIdentifier, c: ChunkUkey)
        ensures
            final(self).split_points() == old(self).split_points().insert(m, c),
            final(self).chunk_graph_chunk_by_chunk_ukey == old(self).chunk_graph_chunk_by_chunk_ukey,
            final(self).chunk_graph_module_by_module_identifier
                == old(self).chunk_graph_module_by_module_identifier,
            forall|n: nat, nm: nat, ng: nat|
                old(self).wf(n, nm, ng) && m < nm && c < n ==> #[trigger] final(self).wf(n, nm, ng),
    {
        self.split_point_module_identifier_to_chunk_ukey.insert(m, c);
        proof {
            assert forall|n: nat, nm: nat, ng: nat|
                old(self).wf(n, nm, ng) && m < nm && c < n implies #[trigger] self.wf(n, nm, ng) by {
                assert forall|y: ModuleIdentifier| #[trigger] self.split_points().contains_key(y) implies y < nm && self.split_points()[y] < n by {
                    if y != m {
                        assert(old(self).split_points().contains_key(y));
                    }
                }
                assert forall|x: ChunkUkey, y: ModuleIdentifier|
                    self.has_module(y) && #[trigger] self.module_chunks(y).contains(x) implies self.has_chunk(x) && self.chunk_modules(x).contains(y) by {
                    assert(old(self).module_chunks(y).contains(x));
                }
                assert forall|x: ChunkUkey, y: ModuleIdentifier|
                    self.has_chunk(x) && #[trigger] self.chunk_modules(x).contains(y) implies self.has_module(y) && self.module_chunks(y).contains(x) by {
                    assert(old(self).chunk_modules(x).contains(y));
                }
                assert forall|x: ChunkUkey, y: ModuleIdentifier|
                    self.has_chunk(x) && #[trigger] self.entry_modules(x).contains_key(y) implies self.has_module(y) && self.entry_modules(x)[y] < ng by {
                    assert(old(self).entry_modules(x).contains_key(y));
                }
                assert forall|y: ModuleIdentifier, x: ChunkUkey|
                    self.has_module(y) && #[trigger] self.module_entry_chunks(y).contains(x) implies x < n by {
                    assert(old(self).module_entry_chunks(y).contains(x));
                }
                assert forall|x: ChunkUkey| #[trigger] self.has_chunk(x) implies x < n by {
                    assert(old(self).has_chunk(x));
                }
                assert forall|y: ModuleIdentifier| #[trigger] self.has_module(y) implies y < nm by {
                    assert(old(self).has_module(y));
                }
            }
        }
    }

    /// Whether module `m` is in chunk `c`.
    pub fn is_module_in_chunk(&self, m: &ModuleIdentifier, c: ChunkUkey) -> (r: bool)
        requires
            self.has_chunk(c),
        ensures
            r == self.chunk_modules(c).contains(*m),
    {
        let chunk_graph_chunk = self.chunk_graph_chunk_by_chunk_ukey.get(&c).unwrap();
        chunk_graph_chunk.modules.contains(m)
    }

    /// Whether chunk `c` is among the chunks of module `m`.
    pub fn is_chunk_of_module(&self, m: &ModuleIdentifier, c: ChunkUkey) -> (r: bool)
        requires
            self.has_module(*m),
        ensures
            r == self.module_chunks(*m).contains(c),
    {
        let chunk_graph_module = self.chunk_graph_module_by_module_identifier.get(m).unwrap();
        chunk_graph_module.chunks.contains(&c)
    }

    /// Puts module `m` into chunk `c`.
    pub fn connect_chunk_and_module(&mut self, c: ChunkUkey, m: ModuleIdentifier)
        requires
            old(self).has_chunk(c),
            old(self).has_module(m),
        ensures
            final(self).chunk_graph_chunk_by_chunk_ukey@.dom()
                == old(self).chunk_graph_chunk_by_chunk_ukey@.dom(),
            final(self).chunk_graph_module_by_module_identifier@.dom()
                == old(self).chunk_graph_module_by_module_identifier@.dom(),
            forall|c2: ChunkUkey| #[trigger]
                final(self).chunk_modules(c2) == if c2 == c {
                    old(self).chunk_modules(c2).insert(m)
                } else {
                    old(self).chunk_modules(c2)
                },
            forall|m2: ModuleIdentifier| #[trigger]
                final(self).module_chunks(m2) == if m2 == m {
                    old(self).module_chunks(m2).insert(c)
                } else {
                    old(self).module_chunks(m2)
                },
            forall|c2: ChunkUkey| #[trigger]
                final(self).entry_modules(c2) == old(self).entry_modules(c2),
            forall|m2: ModuleIdentifier| #[trigger]
                final(self).module_entry_chunks(m2) == old(self).module_entry_chunks(m2),
            final(self).split_point_module_identifier_to_chunk_ukey
                == old(self).split_point_module_identifier_to_chunk_ukey,
            forall|n: nat, nm: nat, ng: nat|
                old(self).wf(n, nm, ng) ==> #[trigger] final(self).wf(n, nm, ng),
    {
        let mut cgm = self.chunk_graph_module_by_module_identifier.remove(&m).unwrap();
        cgm.chunks.insert(c);
        self.chunk_graph_module_by_module_identifier.insert(m, cgm);
        let mut cgc = self.chunk_graph_chunk_by_chunk_ukey.remove(&c).unwrap();
        cgc.modules.insert(m);
        self.chunk_graph_chunk_by_chunk_ukey.insert(c, cgc);
        assert(self.chunk_graph_chunk_by_chunk_ukey@.dom()
            =~= old(self).chunk_graph_chunk_by_chunk_ukey@.dom());
        assert(self.chunk_graph_module_by_module_identifier@.dom()
            =~= old(self).chunk_graph_module_by_module_identifier@.dom());
        proof {
            assert forall|n: nat, nm: nat, ng: nat|
                old(self).wf(n, nm, ng) implies #[trigger] self.wf(n, nm, ng) by {
                assert forall|x: ChunkUkey| #[trigger] self.has_chunk(x) implies x < n by {
                    assert(old(self).has_chunk(x));
                }
                assert forall|y: ModuleIdentifier| #[trigger] self.has_module(y) implies y < nm by {
                    assert(old(self).has_module(y));
                }
                assert forall|x: ChunkUkey, y: ModuleIdentifier|
                    self.has_module(y) && #[trigger] self.module_chunks(y).contains(x) implies self.has_chunk(x) && self.chunk_modules(x).contains(y) by {
                    assert(old(self).has_module(y));
                    if !(x == c && y == m) {
                        assert(old(self).module_chunks(y).contains(x));
                    }
                }
                assert forall|x: ChunkUkey, y: ModuleIdentifier|
                    self.has_chunk(x) && #[trigger] self.chunk_modules(x).contains(y) implies self.has_module(y) && self.module_chunks(y).contains(x) by {
                    assert(old(self).has_chunk(x));
                    if !(x == c && y == m) {
                        assert(old(self).chunk_modules(x).contains(y));
                    }
                }
                assert forall|x: ChunkUkey, y: ModuleIdentifier|
                    self.has_chunk(x) && #[trigger] self.entry_modules(x).contains_key(y) implies self.has_module(y) && self.entry_modules(x)[y] < ng by {
                    assert(old(self).has_chunk(x));
                    if !(x == c && y == m) {
                        assert(old(self).entry_modules(x).contains_key(y));
                    }
                }
                assert forall|y: ModuleIdentifier, x: ChunkUkey|
                    self.has_module(y) && #[trigger] self.module_entry_chunks(y).contains(x) implies x < n by {
                    assert(old(self).has_module(y));
                    if !(x == c && y == m) {
                        assert(old(self).module_entry_chunks(y).contains(x));
                    }
                }
                assert forall|y: ModuleIdentifier| #[trigger] self.split_points().contains_key(y) implies y < nm && self.split_points()[y] < n by {
                    assert(old(self).split_points().contains_key(y));
                }
            }
        }
    }

    /// Takes module `m` out of chunk `c`.
    pub fn disconnect_chunk_and_module(&mut self, c: ChunkUkey, m: ModuleIdentifier)
        requires
            old(self).has_chunk(c),
            old(self).has_module(m),
        ensures
            final(self).chunk_graph_chunk_by_chunk_ukey@.dom()
                == old(self).chunk_graph_chunk_by_chunk_ukey@.dom(),
            final(self).chunk_graph_module_by_module_identifier@.dom()
                == old(self).chunk_graph_module_by_module_identifier@.dom(),
            forall|c2: ChunkUkey| #[trigger]
                final(self).chunk_modules(c2) == if c2 == c {
                    old(self).chunk_modules(c2).remove(m)
                } else {
                    old(self).chunk_modules(c2)
                },
            forall|m2: ModuleIdentifier| #[trigger]
                final(self).module_chunks(m2) == if m2 == m {
                    old(self).module_chunks(m2).remove(c)
                } else {
                    old(self).module_chunks(m2)
                },
            forall|c2: ChunkUkey| #[trigger]
                final(self).entry_modules(c2) == old(self).entry_modules(c2),
            forall|m2: ModuleIdentifier| #[trigger]
                final(self).module_entry_chunks(m2) == old(self).module_entry_chunks(m2),
            final(self).split_point_module_identifier_to_chunk_ukey
                == old(self).split_point_module_identifier_to_chunk_ukey,
            forall|n: nat, nm: nat, ng: nat|
                old(self).wf(n, nm, ng) ==> #[trigger] final(self).wf(n, nm, ng),
    {
        let mut cgm = self.chunk_graph_module_by_module_identifier.remove(&m).unwrap();
        cgm.chunks.remove(&c);
        self.chunk_graph_module_by_module_identifier.insert(m, cgm);
        let mut cgc = self.chunk_graph_chunk_by_chunk_ukey.remove(&c).unwrap();
        cgc.modules.remove(&m);
        self.chunk_graph_chunk_by_chunk_ukey.insert(c, cgc);
        assert(self.chunk_graph_chunk_by_chunk_ukey@.dom()
            =~= old(self).chunk_graph_chunk_by_chunk_ukey@.dom());
        assert(self.chunk_graph_module_by_module_identifier@.dom()
            =~= old(self).chunk_graph_module_by_module_identifier@.dom());
        proof {
            assert forall|n: nat, nm: nat, ng: nat|
                old(self).wf(n, nm, ng) implies #[trigger] self.wf(n, nm, ng) by {
                assert forall|x: ChunkUkey| #[trigger] self.has_chunk(x) implies x < n by {
                    assert(old(self).has_chunk(x));
                }
                assert forall|y: ModuleIdentifier| #[trigger] self.has_module(y) implies y < nm by {
                    assert(old(self).has_module(y));
                }
                assert forall|x: ChunkUkey, y: ModuleIdentifier|
                    self.has_module(y) && #[trigger] self.module_chunks(y).contains(x) implies self.has_chunk(x) && self.chunk_modules(x).contains(y) by {
                    assert(old(self).has_module(y));
                    if !(x == c && y == m) {
                        assert(old(self).module_chunks(y).contains(x));
                    }
                }
                assert forall|x: ChunkUkey, y: ModuleIdentifier|
                    self.has_chunk(x) && #[trigger] self.chunk_modules(x).contains(y) implies self.has_module(y) && self.module_chunks(y).contains(x) by {
                    assert(old(self).has_chunk(x));
                    if !(x == c && y == m) {
                        assert(old(self).chunk_modules(x).contains(y));
                    }
                }
                assert forall|x: ChunkUkey, y: ModuleIdentifier|
                    self.has_chunk(x) && #[trigger] self.entry_modules(x).contains_key(y) implies self.has_module(y) && self.entry_modules(x)[y] < ng by {
                    assert(old(self).has_chunk(x));
                    if !(x == c && y == m) {
                        assert(old(self).entry_modules(x).contains_key(y));
                    }
                }
                assert forall|y: ModuleIdentifier, x: ChunkUkey|
                    self.has_module(y) && #[trigger] self.module_entry_chunks(y).contains(x) implies x < n by {
                    assert(old(self).has_module(y));
                    if !(x == c && y == m) {
                        assert(old(self).module_entry_chunks(y).contains(x));
                    }
                }
                assert forall|y: ModuleIdentifier| #[trigger] self.split_points().contains_key(y) implies y < nm && self.split_points()[y] < n by {
                    assert(old(self).split_points().contains_key(y));
                }
            }
        }
    }

    /// Makes module `m` an entry module of chunk `c`, started by entrypoint `g`.
    pub fn connect_chunk_and_entry_module(
        &mut self,
        c: ChunkUkey,
        m: ModuleIdentifier,
        g: ChunkGroupUkey,
    )
        requires
            old(self).has_chunk(c),
            old(self).has_module(m),
        ensures
            final(self).chunk_graph_chunk_by_chunk_ukey@.dom()
                == old(self).chunk_graph_chunk_by_chunk_ukey@.dom(),
            final(self).chunk_graph_module_by_module_identifier@.dom()
                == old(self).chunk_graph_module_by_module_identifier@.dom(),
            forall|c2: ChunkUkey| #[trigger]
                final(self).entry_modules(c2) == if c2 == c {
                    old(self).entry_modules(c2).insert(m, g)
                } else {
                    old(self).entry_modules(c2)
                },
            forall|m2: ModuleIdentifier| #[trigger]
                final(self).module_entry_chunks(m2) == if m2 == m {
                    old(self).module_entry_chunks(m2).insert(c)
                } else {
                    old(self).module_entry_chunks(m2)
                },
            forall|c2: ChunkUkey| #[trigger]
                final(self).chunk_modules(c2) == old(self).chunk_modules(c2),
            forall|m2: ModuleIdentifier| #[trigger]
                final(self).module_chunks(m2) == old(self).module_chunks(m2),
            final(self).split_point_module_identifier_to_chunk_ukey
                == old(self).split_point_module_identifier_to_chunk_ukey,
            forall|n: nat, nm: nat, ng: nat|
                old(self).wf(n, nm, ng) && g < ng ==> #[trigger] final(self).wf(n, nm, ng),
    {
        let mut cgm = self.chunk_graph_module_by_module_identifier.remove(&m).unwrap();
        cgm.entry_in_chunks.insert(c);
        self.chunk_graph_module_by_module_identifier.insert(m, cgm);
        let mut cgc = self.chunk_graph_chunk_by_chunk_ukey.remove(&c).unwrap();
        cgc.entry_modules.insert(m, g);
        self.chunk_graph_chunk_by_chunk_ukey.insert(c, cgc);
        assert(self.chunk_graph_chunk_by_chunk_ukey@.dom()
            =~= old(self).chunk_graph_chunk_by_chunk_ukey@.dom());
        assert(self.chunk_graph_module_by_module_identifier@.dom()
            =~= old(self).chunk_graph_module_by_module_identifier@.dom());
        proof {
            assert forall|n: nat, nm: nat, ng: nat|
                old(self).wf(n, nm, ng) && g < ng implies #[trigger] self.wf(n, nm, ng) by {
                assert forall|x: ChunkUkey| #[trigger] self.has_chunk(x) implies x < n by {
                    assert(old(self).has_chunk(x));
                }
                assert forall|y: ModuleIdentifier| #[trigger] self.has_module(y) implies y < nm by {
                    assert(old(self).has_module(y));
                }
                assert forall|x: ChunkUkey, y: ModuleIdentifier|
                    self.has_module(y) && #[trigger] self.module_chunks(y).contains(x) implies self.has_chunk(x) && self.chunk_modules(x).contains(y) by {
                    assert(old(self).has_module(y));
                    if !(x == c && y == m) {
                        assert(old(self).module_chunks(y).contains(x));
                    }
                }
                assert forall|x: ChunkUkey, y: ModuleIdentifier|
                    self.has_chunk(x) && #[trigger] self.chunk_modules(x).contains(y) implies self.has_module(y) && self.module_chunks(y).contains(x) by {
                    assert(old(self).has_chunk(x));
                    if !(x == c && y == m) {
                        assert(old(self).chunk_modules(x).contains(y));
                    }
                }
                assert forall|x: ChunkUkey, y: ModuleIdentifier|
                    self.has_chunk(x) && #[trigger] self.entry_modules(x).contains_key(y) implies self.has_module(y) && self.entry_modules(x)[y] < ng by {
                    assert(old(self).has_chunk(x));
                    if !(x == c && y == m) {
                        assert(old(self).entry_modules(x).contains_key(y));
                    }
                }
                assert forall|y: ModuleIdentifier, x: ChunkUkey|
                    self.has_module(y) && #[trigger] self.module_entry_chunks(y).contains(x) implies x < n by {
                    assert(old(self).has_module(y));
                    if !(x == c && y == m) {
                        assert(old(self).module_entry_chunks(y).contains(x));
                    }
                }
                assert forall|y: ModuleIdentifier| #[trigger] self.split_points().contains_key(y) implies y < nm && self.split_points()[y] < n by {
                    assert(old(self).split_points().contains_key(y));
                }
            }
        }
    }
}


/// The state of a compilation that code splitting reads and builds.
pub struct Compilation {
    pub module_graph: ModuleGraph,
    /// The entries, in the order they were declared.
    pub entries: Vec<EntryData>,
    pub chunk_by_ukey: Vec<Chunk>,
    pub chunk_group_by_ukey: Vec<ChunkGroup>,
    pub named_chunks: StringHashMap<ChunkUkey>,
    pub named_chunk_groups: StringHashMap<ChunkGroupUkey>,
    pub entrypoints: StringHashMap<ChunkGroupUkey>,
    pub chunk_graph: ChunkGraph,
}

impl Compilation {
    pub open spec fn num_modules(&self) -> nat {
        self.module_graph.modules.len() as nat
    }

    pub open spec fn num_chunks(&self) -> nat {
        self.chunk_by_ukey.len() as nat
    }

    pub open spec fn num_groups(&self) -> nat {
        self.chunk_group_by_ukey.len() as nat
    }

    /// A chunk group refers only to chunks and modules of the compilation, and its
    /// order counters have room for every module that it has not numbered yet.
    pub open spec fn group_wf(&self, g: ChunkGroup) -> bool {
        &&& forall|i: int| 0 <= i < g.chunks.len() ==> #[trigger] g.chunks@[i] < self.num_chunks()
        &&& g.entry_point_chunk is Some ==> g.entry_point_chunk.unwrap() < self.num_chunks()
        &&& g.runtime_chunk is Some ==> g.runtime_chunk.unwrap() < self.num_chunks()
        &&& forall|m: ModuleIdentifier| #[trigger]
            g.module_pre_order_indices@.contains_key(m) ==> m < self.num_modules()
        &&& forall|m: ModuleIdentifier| #[trigger]
            g.module_post_order_indices@.contains_key(m) ==> m < self.num_modules()
        &&& g.next_pre_order_index + self.num_modules() <= usize::MAX
            + g.module_pre_order_indices@.dom().len()
        &&& g.next_post_order_index + self.num_modules() <= usize::MAX
            + g.module_post_order_indices@.dom().len()
        &&& g.kind == ChunkGroupKind::Entrypoint ==> g.runtime is Some
    }

    /// Every reference inside the compilation points at something that exists.
    pub open spec fn wf(&self) -> bool {
        &&& self.module_graph.wf()
        &&& forall|c: int| 0 <= c < self.num_chunks() ==> #[trigger] self.chunk_by_ukey@[c].ukey == c
        &&& forall|g: int|
            0 <= g < self.num_groups() ==> #[trigger] self.chunk_group_by_ukey@[g].ukey == g
        &&& forall|g: int|
            0 <= g < self.num_groups() ==> self.group_wf(#[trigger] self.chunk_group_by_ukey@[g])
        &&& forall|n: Seq<char>| #[trigger]
            self.named_chunks@.contains_key(n) ==> self.named_chunks@[n] < self.num_chunks()
        &&& forall|n: Seq<char>| #[trigger]
            self.named_chunk_groups@.contains_key(n) ==> self.named_chunk_groups@[n]
                < self.num_groups()
        &&& forall|n: Seq<char>| #[trigger]
            self.entrypoints@.contains_key(n) ==> self.entrypoints@[n] < self.num_groups()
        &&& self.chunk_graph.wf(self.num_chunks(), self.num_modules(), self.num_groups())
        &&& self.chunk_graph.all_chunks_added(self.num_chunks())
    }

    /// A compilation that has no chunk or chunk group yet, and no module of which has an
    /// order index.
    pub open spec fn is_unsplit(&self) -> bool {
        &&& self.num_chunks() == 0
        &&& self.num_groups() == 0
        &&& forall|m: int|
            0 <= m < self.num_modules() ==> (#[trigger] self.module_graph.modules@[m]).pre_order_index is None
                && self.module_graph.modules@[m].post_order_index is None
    }

    /// A compilation without modules, entries, chunks or groups.
    pub fn empty() -> (c: Compilation)
        ensures
            c.wf(),
    {
        let c = Compilation {
            module_graph: ModuleGraph { modules: Vec::new(), dependency_modules: Vec::new() },
            entries: Vec::new(),
            chunk_by_ukey: Vec::new(),
            chunk_group_by_ukey: Vec::new(),
            named_chunks: StringHashMap::new(),
            named_chunk_groups: StringHashMap::new(),
            entrypoints: StringHashMap::new(),
            chunk_graph: ChunkGraph::new(),
        };
        proof {
            assert forall|x: ChunkUkey| #[trigger] c.chunk_graph.has_chunk(x) implies x < 0 by {
                assert(Map::<ChunkUkey, ChunkGraphChunk>::empty().contains_key(x) == false);
            }
        }
        c
    }

    /// The chunk named `name`: the one already named so, or else a new one at the end.
    pub fn add_named_chunk(
        name: String,
        id: String,
        chunk_by_ukey: &mut Vec<Chunk>,
        named_chunks: &mut StringHashMap<ChunkUkey>,
    ) -> (ukey: ChunkUkey)
        requires
            forall|n: Seq<char>| #[trigger]
                old(named_chunks)@.contains_key(n) ==> old(named_chunks)@[n] < old(
                    chunk_by_ukey,
                ).len(),
        ensures
            old(named_chunks)@.contains_key(name@) ==> {
                &&& ukey == old(named_chunks)@[name@]
                &&& *final(chunk_by_ukey) == *old(chunk_by_ukey)
                &&& final(named_chunks)@ == old(named_chunks)@
            },
            !old(named_chunks)@.contains_key(name@) ==> {
                &&& ukey == old(chunk_by_ukey).len()
                &&& final(chunk_by_ukey)@.len() == old(chunk_by_ukey)@.len() + 1
                &&& final(chunk_by_ukey)@.subrange(0, ukey as int) == old(chunk_by_ukey)@
                &&& final(chunk_by_ukey)@[ukey as int].ukey == ukey
                &&& final(chunk_by_ukey)@[ukey as int].name == Some(name)
                &&& final(chunk_by_ukey)@[ukey as int].id == Some(id)
                &&& final(chunk_by_ukey)@[ukey as int].runtime@.len() == 0
                &&& final(chunk_by_ukey)@[ukey as int].groups@ == Set::<ChunkGroupUkey>::empty()
                &&& final(named_chunks)@ == old(named_chunks)@.insert(name@, ukey)
            },
            ukey < final(chunk_by_ukey).len(),
    {
        match named_chunks.get(name.as_str()) {
            Some(ukey) => *ukey,
            None => {
                let ukey = chunk_by_ukey.len();
                let key = name.clone();
                chunk_by_ukey.push(Chunk::new(ukey, Some(name), id));
                named_chunks.insert(key, ukey);
                assert(chunk_by_ukey@.subrange(0, ukey as int) =~= old(chunk_by_ukey)@);
                ukey
            },
        }
    }

    /// The compilation stays well formed when only its chunks, chunk names and chunk graph
    /// change, as long as those are well formed among themselves.
    pub proof fn lemma_wf_grow_chunks(old: &Compilation, new: &Compilation)
        requires
            old.wf(),
            new.module_graph == old.module_graph,
            new.chunk_group_by_ukey == old.chunk_group_by_ukey,
            new.named_chunk_groups == old.named_chunk_groups,
            new.entrypoints == old.entrypoints,
            new.num_chunks() >= old.num_chunks(),
            forall|c: int| 0 <= c < new.num_chunks() ==> #[trigger] new.chunk_by_ukey@[c].ukey == c,
            forall|n: Seq<char>| #[trigger]
                new.named_chunks@.contains_key(n) ==> new.named_chunks@[n] < new.num_chunks(),
            new.chunk_graph.wf(new.num_chunks(), new.num_modules(), new.num_groups()),
            new.chunk_graph.all_chunks_added(new.num_chunks()),
        ensures
            new.wf(),
    {
        assert forall|g: int| 0 <= g < new.num_groups() implies new.group_wf(
            #[trigger] new.chunk_group_by_ukey@[g],
        ) by {
            assert(old.group_wf(old.chunk_group_by_ukey@[g]));
        }
    }

    /// The compilation stays well formed when one well-formed group is appended.
    pub proof fn lemma_wf_push_group(old: &Compilation, new: &Compilation)
        requires
            old.wf(),
            new.module_graph == old.module_graph,
            new.chunk_graph == old.chunk_graph,
            new.named_chunks == old.named_chunks,
            new.num_chunks() == old.num_chunks(),
            forall|c: int|
                0 <= c < new.num_chunks() ==> #[trigger] new.chunk_by_ukey@[c].ukey
                    == old.chunk_by_ukey@[c].ukey,
            new.num_groups() == old.num_groups() + 1,
            forall|g: int|
                0 <= g < old.num_groups() ==> #[trigger] new.chunk_group_by_ukey@[g]
                    == old.chunk_group_by_ukey@[g],
            new.chunk_group_by_ukey@[old.num_groups() as int].ukey == old.num_groups(),
            new.group_wf(new.chunk_group_by_ukey@[old.num_groups() as int]),
            forall|n: Seq<char>| #[trigger]
                new.named_chunk_groups@.contains_key(n) ==> new.named_chunk_groups@[n]
                    < new.num_groups(),
            forall|n: Seq<char>| #[trigger]
                new.entrypoints@.contains_key(n) ==> new.entrypoints@[n] < new.num_groups(),
        ensures
            new.wf(),
    {
        assert forall|g: int| 0 <= g < new.num_groups() implies new.group_wf(
            #[trigger] new.chunk_group_by_ukey@[g],
        ) by {
            if g < old.num_groups() {
                assert(old.group_wf(old.chunk_group_by_ukey@[g]));
            }
        }
        assert forall|g: int| 0 <= g < new.num_groups() implies #[trigger] new.chunk_group_by_ukey@[g].ukey == g by {
            if g < old.num_groups() {
                assert(old.chunk_group_by_ukey@[g].ukey == g);
            }
        }
        assert forall|c: int| 0 <= c < new.num_chunks() implies #[trigger] new.chunk_by_ukey@[c].ukey == c by {
            assert(old.chunk_by_ukey@[c].ukey == c);
        }
        old.chunk_graph.lemma_wf_widen(
            old.num_chunks(),
            old.num_modules(),
            old.num_groups(),
            new.num_chunks(),
            new.num_groups(),
        );
    }

    /// The compilation stays well formed when one group changes only in its chunks and
    /// its runtime chunk, to chunks that exist.
    pub proof fn lemma_wf_update_group(old: &Compilation, new: &Compilation, g: ChunkGroupUkey)
        requires
            old.wf(),
            g < old.num_groups(),
            new.module_graph == old.module_graph,
            new.chunk_graph == old.chunk_graph,
            new.named_chunks == old.named_chunks,
            new.named_chunk_groups == old.named_chunk_groups,
            new.entrypoints == old.entrypoints,
            new.num_chunks() == old.num_chunks(),
            forall|c: int|
                0 <= c < new.num_chunks() ==> #[trigger] new.chunk_by_ukey@[c].ukey
                    == old.chunk_by_ukey@[c].ukey,
            new.num_groups() == old.num_groups(),
            forall|h: int|
                0 <= h < old.num_groups() && h != g ==> #[trigger] new.chunk_group_by_ukey@[h]
                    == old.chunk_group_by_ukey@[h],
            ({
                let og = old.chunk_group_by_ukey@[g as int];
                let ng = new.chunk_group_by_ukey@[g as int];
                &&& ng.ukey == og.ukey
                &&& ng.kind == og.kind
                &&& ng.runtime == og.runtime
                &&& ng.entry_point_chunk == og.entry_point_chunk
                &&& ng.module_pre_order_indices == og.module_pre_order_indices
                &&& ng.module_post_order_indices == og.module_post_order_indices
                &&& ng.next_pre_order_index == og.next_pre_order_index
                &&& ng.next_post_order_index == og.next_post_order_index
                &&& ng.runtime_chunk is Some ==> ng.runtime_chunk.unwrap() < new.num_chunks()
                &&& forall|i: int| 0 <= i < ng.chunks.len() ==> #[trigger] ng.chunks@[i] < new.num_chunks()
            }),
        ensures
            new.wf(),
    {
        assert forall|h: int| 0 <= h < new.num_groups() implies new.group_wf(
            #[trigger] new.chunk_group_by_ukey@[h],
        ) by {
            assert(old.group_wf(old.chunk_group_by_ukey@[h]));
        }
        assert forall|h: int| 0 <= h < new.num_groups() implies #[trigger] new.chunk_group_by_ukey@[h].ukey == h by {
            assert(old.chunk_group_by_ukey@[h].ukey == h);
        }
        assert forall|c: int| 0 <= c < new.num_chunks() implies #[trigger] new.chunk_by_ukey@[c].ukey == c by {
            assert(old.chunk_by_ukey@[c].ukey == c);
        }
    }
}

impl ChunkGroup {
    /// Moving an existing chunk to the front keeps every chunk of the list below `n`.
    pub proof fn lemma_chunks_with_first_bounded(chunks: Seq<ChunkUkey>, c: ChunkUkey, n: nat)
        requires
            c < n,
            forall|i: int| 0 <= i < chunks.len() ==> #[trigger] chunks[i] < n,
        ensures
            forall|i: int|
                0 <= i < Self::chunks_with_first(chunks, c).len()
                    ==> #[trigger] Self::chunks_with_first(chunks, c)[i] < n,
    {
        chunks.index_of_first_ensures(c);
        match chunks.index_of_first(c) {
            Some(k) => {
                if k > 0 {
                    chunks.remove_ensures(k);
                    let r = Self::chunks_with_first(chunks, c);
                    assert forall|i: int| 0 <= i < r.len() implies #[trigger] r[i] < n by {
                        if i > 0 {
                            assert(r[i] == chunks.remove(k)[i - 1]);
                            if i - 1 < k {
                                assert(chunks.remove(k)[i - 1] == chunks[i - 1]);
                            } else {
                                assert(chunks.remove(k)[i - 1] == chunks[i]);
                            }
                        }
                    }
                }
            },
            None => {
                let r = Self::chunks_with_first(chunks, c);
                assert forall|i: int| 0 <= i < r.len() implies #[trigger] r[i] < n by {
                    if i > 0 {
                        assert(r[i] == chunks[i - 1]);
                    }
                }
            },
        }
    }
}

} // verus!
