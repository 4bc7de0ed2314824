use crate::compilation::ChunkGroup;
use crate::compilation::ChunkGroupKind;
use crate::compilation::ChunkGroupUkey;
use crate::compilation::ChunkUkey;
use crate::compilation::Compilation;
use crate::compilation::ModuleGraphModule;
use crate::compilation::ModuleIdentifier;
use crate::split_chunks::CodeSplitter;
use crate::split_chunks::QueueAction;
use crate::split_chunks::QueueItem;
use vstd::prelude::*;

verus! {

/// `b` is `a` but for its order indices and counters.
pub open spec fn same_group_but_orders(a: ChunkGroup, b: ChunkGroup) -> bool {
    &&& b.ukey == a.ukey
    &&& b.kind == a.kind
    &&& b.chunks == a.chunks
    &&& b.parents == a.parents
    &&& b.children == a.children
    &&& b.runtime == a.runtime
    &&& b.entry_point_chunk == a.entry_point_chunk
    &&& b.runtime_chunk == a.runtime_chunk
    &&& b.name == a.name
}

/// `b` is `a` but for its order indices.
pub open spec fn same_module_but_orders(a: ModuleGraphModule, b: ModuleGraphModule) -> bool {
    &&& b.module_identifier == a.module_identifier
    &&& b.chunk_name == a.chunk_name
    &&& b.dependencies == a.dependencies
    &&& b.dynamic_dependencies == a.dynamic_dependencies
}

/// `m` with the index `v` given where `m` has none.
pub open spec fn numbered(m: Map<ModuleIdentifier, usize>, x: ModuleIdentifier, v: usize) -> Map<
    ModuleIdentifier,
    usize,
> {
    if m.contains_key(x) {
        m
    } else {
        m.insert(x, v)
    }
}

/// The counter after numbering `x` in `m` with it.
pub open spec fn counted(m: Map<ModuleIdentifier, usize>, x: ModuleIdentifier, v: usize) -> int {
    if m.contains_key(x) {
        v as int
    } else {
        v + 1
    }
}

/// The index a module has after numbering it with `v` where it has none.
pub open spec fn numbered_opt(o: Option<usize>, v: usize) -> Option<usize> {
    if o is Some {
        o
    } else {
        Some(v)
    }
}

/// The counter after numbering an index `o` with it.
pub open spec fn counted_opt(o: Option<usize>, v: usize) -> int {
    if o is Some {
        v as int
    } else {
        v + 1
    }
}

/// The queue item that leaves the module of `item`.
pub open spec fn leave_item(item: QueueItem) -> QueueItem {
    QueueItem {
        action: QueueAction::Leave,
        chunk_group: item.chunk_group,
        chunk: item.chunk,
        module_identifier: item.module_identifier,
    }
}

/// The queue items that add the static dependencies `deps` of the module of `item` to its
/// chunk, last dependency first, so that the first one comes off the queue first.
pub open spec fn static_items(item: QueueItem, deps: Seq<ModuleIdentifier>) -> Seq<QueueItem> {
    Seq::new(
        deps.len(),
        |i: int|
            QueueItem {
                action: QueueAction::AddAndEnter,
                chunk_group: item.chunk_group,
                chunk: item.chunk,
                module_identifier: deps[deps.len() - 1 - i],
            },
    )
}

/// The dynamic dependencies that become split points when the last `i` of `deps` are
/// looked at, last first, and `done` holds the split points so far: each in the order it is
/// met, once, unless it is in `done`.
pub open spec fn fresh_splits(deps: Seq<ModuleIdentifier>, done: Set<ModuleIdentifier>, i: nat) -> Seq<
    ModuleIdentifier,
>
    decreases i,
{
    if i == 0 || i > deps.len() {
        Seq::empty()
    } else {
        let p = fresh_splits(deps, done, (i - 1) as nat);
        let x = deps[deps.len() - i];
        if done.contains(x) || p.contains(x) {
            p
        } else {
            p.push(x)
        }
    }
}



/// `s` backwards.
pub open spec fn rev<A>(s: Seq<A>) -> Seq<A> {
    Seq::new(s.len(), |i: int| s[s.len() - 1 - i])
}


/// Group `g` of `comp` is the child of exactly one group, which lists it as a child.
pub open spec fn group_linked(comp: &Compilation, g: int) -> bool {
    exists|p: ChunkGroupUkey|
        p < comp.num_groups() && comp.chunk_group_by_ukey@[g].parents@ == set![p]
            && #[trigger] comp.chunk_group_by_ukey@[p as int].children@.contains(g as usize)
}

/// Some group of `comp` that no entry started has the chunk of split point `d` as its one
/// chunk.
pub open spec fn point_grouped(comp: &Compilation, d: ModuleIdentifier) -> bool {
    exists|h: int|
        0 <= h < comp.num_groups() && (#[trigger] comp.chunk_group_by_ukey@[h]).kind == ChunkGroupKind::Normal
            && comp.chunk_group_by_ukey@[h].chunks@ == seq![comp.chunk_graph.split_points()[d]]
}

/// Every group of `comp` that an entry did not start is linked to its one parent.
pub open spec fn groups_linked(comp: &Compilation) -> bool {
    forall|g: int|
        0 <= g < comp.num_groups() && (#[trigger] comp.chunk_group_by_ukey@[g]).kind == ChunkGroupKind::Normal
            ==> group_linked(comp, g)
}

/// The relations from the chunk of each split point of `points` to the chunk it was split
/// from.
pub open spec fn link_edges(
    sp: Map<ModuleIdentifier, ChunkUkey>,
    from: Map<ModuleIdentifier, ChunkUkey>,
    points: Set<ModuleIdentifier>,
) -> Set<(usize, usize)> {
    Set::new(|e: (usize, usize)| exists|d: ModuleIdentifier| #[trigger] points.contains(d) && e == (sp[d], from[d]))
}


/// The modules of `comp` that have a pre-order index.
pub open spec fn pre_indexed(comp: &Compilation) -> Set<ModuleIdentifier> {
    Set::new(
        |m: ModuleIdentifier| m < comp.num_modules() && comp.module_graph.modules@[m as int].pre_order_index is Some,
    )
}

/// The modules of `comp` that have a post-order index.
pub open spec fn post_indexed(comp: &Compilation) -> Set<ModuleIdentifier> {
    Set::new(
        |m: ModuleIdentifier| m < comp.num_modules() && comp.module_graph.modules@[m as int].post_order_index is Some,
    )
}


/// The chunk name of module `d` of `c`.
pub open spec fn name_of(c: &Compilation, d: ModuleIdentifier) -> Seq<char> {
    c.module_graph.modules@[d as int].chunk_name@
}

/// Some module of `c` imports `d` dynamically.
pub open spec fn dyn_imported(c: &Compilation, d: ModuleIdentifier) -> bool {
    &&& d < c.num_modules()
    &&& exists|x: int| 0 <= x < c.num_modules() && #[trigger] c.module_graph.modules@[x].dynamic_dependencies@.contains(d)
}

/// The names of the entries of `c` and of their runtimes.
pub open spec fn entry_names(c: &Compilation) -> Set<Seq<char>> {
    prepared_names(c, c.entries.len() as int, c.entries.len() as int)
}

/// Every module of `c` that is imported dynamically has a chunk name of its own: no other such
/// module, no entry and no runtime has it.
pub open spec fn dyn_names_fresh(c: &Compilation) -> bool {
    &&& forall|d1: ModuleIdentifier, d2: ModuleIdentifier|
        #[trigger] dyn_imported(c, d1) && #[trigger] dyn_imported(c, d2) && d1 != d2 ==> name_of(c, d1) != name_of(c, d2)
    &&& forall|d: ModuleIdentifier| #[trigger] dyn_imported(c, d) ==> !entry_names(c).contains(name_of(c, d))
}

/// The modules that the dependencies of entry `e` of `c` resolve to, in order.
pub open spec fn entry_mods(c: &Compilation, e: int) -> Seq<ModuleIdentifier> {
    Seq::new(
        c.entries@[e].dependencies@.len(),
        |j: int| CodeSplitter::entry_module(c, e, j).unwrap(),
    )
}

/// What the preparation hands on for the first `i` entries of `c`, their groups numbered
/// from `n0` on: each entry with dependencies, with its group and its modules.
pub open spec fn input_upto(c: &Compilation, n0: nat, i: nat) -> Seq<(ChunkGroupUkey, Seq<ModuleIdentifier>)>
    decreases i,
{
    if i == 0 {
        Seq::empty()
    } else {
        let p = input_upto(c, n0, (i - 1) as nat);
        if c.entries@[i - 1].dependencies.len() > 0 {
            p.push(((n0 + i - 1) as usize, entry_mods(c, i - 1)))
        } else {
            p
        }
    }
}


/// Entry `e` of `c` lists module `m`.
pub open spec fn lists(c: &Compilation, e: int, m: ModuleIdentifier) -> bool {
    exists|j: int|
        0 <= j < c.entries@[e].dependencies.len() && #[trigger] CodeSplitter::entry_module(c, e, j) == Some(m)
}

/// The last of the first `i` entries of `c` that lists module `m`, or `-1`.
pub open spec fn last_lister(c: &Compilation, m: ModuleIdentifier, i: int) -> int
    decreases i,
{
    if i <= 0 {
        -1
    } else if lists(c, i - 1, m) {
        i - 1
    } else {
        last_lister(c, m, i - 1)
    }
}

/// No two entries of `c` have the same name.
pub open spec fn names_distinct(c: &Compilation) -> bool {
    forall|e1: int, e2: int|
        0 <= e1 < c.entries.len() && 0 <= e2 < c.entries.len() && e1 != e2
            ==> #[trigger] c.entries@[e1].name@ != #[trigger] c.entries@[e2].name@
}

/// No entry of `c` is named like a chunk that `c` already has.
pub open spec fn entry_names_new(c: &Compilation) -> bool {
    forall|e: int| 0 <= e < c.entries.len() ==> !c.named_chunks@.contains_key(#[trigger] c.entries@[e].name@)
}

/// The names of the first `i` entries of `c`, and the names of the runtimes
/// of the first `r` entries.
pub open spec fn prepared_names(c: &Compilation, i: int, r: int) -> Set<Seq<char>> {
    Set::new(
        |n: Seq<char>|
            (exists|e: int| 0 <= e < i && #[trigger] c.entries@[e].name@ == n) || (exists|e: int|
                0 <= e < r && (#[trigger] c.entries@[e].options.runtime) is Some
                    && c.entries@[e].options.runtime.unwrap()@ == n),
    )
}

impl CodeSplitter {
    /// Group `n0 + e` of `self` is the entrypoint of entry `e`: it holds the chunk named
    /// after the entry, which is its entry chunk; where `e < placed_below` and the entry names a
    /// runtime, the runtime's chunk comes first and is its runtime chunk; otherwise an entry
    /// without a runtime option has its own chunk as runtime chunk.
    pub open spec fn entry_group_is(&self, n0: nat, e: int, placed_below: int) -> bool {
        let g = self.compilation.chunk_group_by_ukey@[n0 + e];
        let ent = self.compilation.entries@[e];
        let k = self.compilation.named_chunks@[ent.name@];
        &&& self.compilation.named_chunks@.contains_key(ent.name@)
        &&& g.ukey == n0 + e
        &&& g.kind == ChunkGroupKind::Entrypoint
        &&& g.name is Some && g.name.unwrap()@ == ent.name@
        &&& g.runtime is Some && g.runtime.unwrap()@ == ent.name@
        &&& g.entry_point_chunk == Some(k)
        &&& g.parents@ == Set::<ChunkGroupUkey>::empty()
        &&& g.children@ == Set::<ChunkGroupUkey>::empty()
        &&& g.module_pre_order_indices@ == Map::<ModuleIdentifier, usize>::empty()
        &&& g.module_post_order_indices@ == Map::<ModuleIdentifier, usize>::empty()
        &&& g.next_pre_order_index == 0
        &&& g.next_post_order_index == 0
        &&& if e < placed_below && ent.options.runtime is Some {
            let rn = ent.options.runtime.unwrap()@;
            let r = self.compilation.named_chunks@[rn];
            &&& self.compilation.named_chunks@.contains_key(rn)
            &&& g.chunks@ == ChunkGroup::chunks_with_first(seq![k], r)
            &&& g.runtime_chunk == Some(r)
        } else {
            &&& g.chunks@ == seq![k]
            &&& g.runtime_chunk == (if ent.options.runtime is None {
                Some(k)
            } else {
                None
            })
        }
    }

    /// The entrypoints and named groups of `self` are those of `old`, and the names of the
    /// first `i` entries of `c`, each bound in both maps to one and the same group.
    pub open spec fn groups_named(&self, old: &CodeSplitter, c: &Compilation, i: int) -> bool {
        let ep = self.compilation.entrypoints@;
        let ng = self.compilation.named_chunk_groups@;
        let oep = old.compilation.entrypoints@;
        let ong = old.compilation.named_chunk_groups@;
        let names = prepared_names(c, i, 0);
        &&& ep.dom() == oep.dom().union(names)
        &&& ng.dom() == ong.dom().union(names)
        &&& forall|n: Seq<char>| #[trigger] oep.contains_key(n) && !names.contains(n) ==> ep[n] == oep[n]
        &&& forall|n: Seq<char>| #[trigger] ong.contains_key(n) && !names.contains(n) ==> ng[n] == ong[n]
        &&& forall|n: Seq<char>| #[trigger] names.contains(n) ==> ng[n] == ep[n]
    }

    /// Each module listed by one of the first `i` entries of `c` is an entry module of that
    /// entry's chunk, recorded with the entry's group `n0 + e`.
    pub open spec fn entry_modules_grouped(&self, c: &Compilation, n0: nat, i: int) -> bool {
        forall|e: int, j: int|
            0 <= e < i && 0 <= j < c.entries@[e].dependencies.len()
                ==> #[trigger] self.compilation.chunk_graph.entry_modules(
                self.compilation.named_chunks@[c.entries@[e].name@],
            )[entry_mods(c, e)[j]] == n0 + e
    }

    /// The chunk names of `self` are those of `old` with the same chunks, and the names of
    /// `names`, each new name with a new chunk of its own.
    pub open spec fn names_grown(&self, old: &CodeSplitter, names: Set<Seq<char>>) -> bool {
        let nc = self.compilation.named_chunks@;
        let onc = old.compilation.named_chunks@;
        &&& nc.dom() == onc.dom().union(names)
        &&& forall|n: Seq<char>| #[trigger] onc.contains_key(n) ==> nc[n] == onc[n]
        &&& forall|n: Seq<char>| #[trigger] nc.contains_key(n) && !onc.contains_key(n) ==> old.num_chunks() <= nc[n]
        &&& forall|n1: Seq<char>, n2: Seq<char>|
            #[trigger] nc.contains_key(n1) && #[trigger] nc.contains_key(n2) && !onc.contains_key(n1) && n1 != n2
                ==> nc[n1] != nc[n2]
        &&& forall|c: ChunkUkey|
            old.num_chunks() <= c < self.num_chunks() ==> #[trigger] self.named_new(old, c)
    }



    /// The items that add the modules of `input` to the entry chunks of their groups, in the
    /// order of `input`.
    pub open spec fn entry_items(&self, input: Seq<(ChunkGroupUkey, Seq<ModuleIdentifier>)>) -> Seq<QueueItem>
        decreases input.len(),
    {
        if input.len() == 0 {
            Seq::empty()
        } else {
            let last = input.last();
            self.entry_items(input.drop_last()) + Seq::new(
                last.1.len(),
                |j: int|
                    QueueItem {
                        action: QueueAction::AddAndEnter,
                        chunk: self.entry_chunk(last.0),
                        chunk_group: last.0,
                        module_identifier: last.1[j],
                    },
            )
        }
    }


    /// The entry items depend only on the compilation.
    pub proof fn lemma_entry_items_same(a: &CodeSplitter, b: &CodeSplitter, input: Seq<(ChunkGroupUkey, Seq<ModuleIdentifier>)>)
        requires
            a.compilation == b.compilation,
        ensures
            a.entry_items(input) == b.entry_items(input),
        decreases input.len(),
    {
        if input.len() > 0 {
            Self::lemma_entry_items_same(a, b, input.drop_last());
            let last = input.last();
            assert(a.entry_chunk(last.0) == b.entry_chunk(last.0));
        }
    }

    /// `self` is `old` after the delayed items became the queue, the queue being empty.
    pub open spec fn swapped(&self, old: &CodeSplitter) -> bool {
        &&& old.queue@.len() == 0
        &&& old.queue_delayed@.len() > 0
        &&& self.queue@ == old.queue_delayed@
        &&& self.queue_delayed@.len() == 0
        &&& self.compilation == old.compilation
        &&& self.next_free_module_pre_order_index == old.next_free_module_pre_order_index
        &&& self.next_free_module_post_order_index == old.next_free_module_post_order_index
        &&& self.split_point_modules == old.split_point_modules
        &&& self.split_from == old.split_from
        &&& self.chunk_relation_graph == old.chunk_relation_graph
    }

    /// Step `i` of `trace` works off the item on top of the queue, or, the queue being
    /// empty, takes up the delayed items.
    pub open spec fn full_step_at(trace: Seq<CodeSplitter>, i: int) -> bool {
        ||| Self::step_at(trace, i)
        ||| trace[i + 1].swapped(&trace[i])
    }

    /// `trace` runs from its first state to its last, a step at a time.
    pub open spec fn is_full_run(trace: Seq<CodeSplitter>) -> bool {
        &&& trace.len() >= 1
        &&& forall|i: int| 0 <= i < trace.len() - 1 ==> #[trigger] Self::full_step_at(trace, i)
    }

    /// A run of item steps continues a full run that ends where it starts.
    pub proof fn lemma_run_concat(t1: Seq<CodeSplitter>, t2: Seq<CodeSplitter>)
        requires
            Self::is_full_run(t1),
            Self::is_run(t2),
            t1.last() == t2[0],
        ensures
            Self::is_full_run(t1 + t2.drop_first()),
            (t1 + t2.drop_first())[0] == t1[0],
            (t1 + t2.drop_first()).last() == t2.last(),
    {
        let t = t1 + t2.drop_first();
        assert forall|i: int| 0 <= i < t.len() - 1 implies #[trigger] Self::full_step_at(t, i) by {
            if i < t1.len() - 1 {
                assert(Self::full_step_at(t1, i));
                assert(t[i] == t1[i] && t[i + 1] == t1[i + 1]);
            } else {
                let k = i - (t1.len() - 1);
                assert(Self::step_at(t2, k));
                assert(t[i] == t2[k] && t[i + 1] == t2[k + 1]);
            }
        }
        if t2.len() == 1 {
            assert(t =~= t1);
        }
    }

    /// A swap continues a full run.
    pub proof fn lemma_run_swap(t1: Seq<CodeSplitter>, s: CodeSplitter)
        requires
            Self::is_full_run(t1),
            s.swapped(&t1.last()),
        ensures
            Self::is_full_run(t1.push(s)),
    {
        let t = t1.push(s);
        assert forall|i: int| 0 <= i < t.len() - 1 implies #[trigger] Self::full_step_at(t, i) by {
            if i < t1.len() - 1 {
                assert(Self::full_step_at(t1, i));
                assert(t[i] == t1[i] && t[i + 1] == t1[i + 1]);
            } else {
                assert(t[i] == t1.last() && t[i + 1] == s);
            }
        }
    }


    /// `trace` is the run of a split of `old` that ended in `fin`: it starts from the
    /// prepared compilation with the items of the entries queued, the first entry's first
    /// module on top, and ends with nothing queued; `fin` is its last state with every
    /// module taken out of a chunk that a chunk it relates to holds too, and with the
    /// runtimes of the entrypoints given to their chunks.
    pub open spec fn split_run(old: &CodeSplitter, fin: &CodeSplitter, trace: Seq<CodeSplitter>) -> bool {
        let c = old.compilation;
        let s0 = trace[0];
        let last = trace.last();
        let exp = input_upto(&c, c.num_groups(), c.entries.len() as nat);
        let lcg = last.compilation.chunk_graph;
        &&& Self::is_full_run(trace)
        &&& s0.queue@ == rev(old.queue@ + s0.entry_items(exp))
        &&& s0.queue_delayed == old.queue_delayed
        &&& s0.split_point_modules == old.split_point_modules
        &&& s0.chunk_relation_graph == old.chunk_relation_graph
        &&& s0.next_free_module_pre_order_index == old.next_free_module_pre_order_index
        &&& s0.next_free_module_post_order_index == old.next_free_module_post_order_index
        &&& s0.compilation.module_graph == c.module_graph
        &&& s0.compilation.entries == c.entries
        &&& last.queue@.len() == 0
        &&& last.queue_delayed@.len() == 0
        &&& fin.compilation.module_graph == last.compilation.module_graph
        &&& fin.compilation.chunk_group_by_ukey == last.compilation.chunk_group_by_ukey
        &&& fin.compilation.named_chunks == last.compilation.named_chunks
        &&& fin.compilation.entrypoints == last.compilation.entrypoints
        &&& fin.split_point_modules == last.split_point_modules
        &&& fin.chunk_relation_graph == last.chunk_relation_graph
        &&& fin.next_free_module_pre_order_index == last.next_free_module_pre_order_index
        &&& fin.next_free_module_post_order_index == last.next_free_module_post_order_index
        &&& fin.compilation.chunk_graph.split_points() == lcg.split_points()
        &&& fin.num_chunks() == last.num_chunks()
        &&& forall|ch: ChunkUkey, m: ModuleIdentifier|
            ch < last.num_chunks() ==> (#[trigger] fin.compilation.chunk_graph.chunk_modules(ch).contains(m) <==> {
                &&& lcg.chunk_modules(ch).contains(m)
                &&& !Self::has_superior(lcg, last.edges(), last.num_chunks(), ch, m)
            })
        &&& forall|ch: int|
            0 <= ch < last.num_chunks() ==> (#[trigger] fin.compilation.chunk_by_ukey@[ch]).runtime_names()
                == last.compilation.chunk_by_ukey@[ch].runtime_names() + Self::entry_runtimes(&last.compilation, ch as usize)
    }


    /// The split point records of `self`: those of `start`, each module that one of the
    /// first `i` entries of `start` lists recorded with the chunk that `names` gives the last
    /// such entry's name, and the modules of `extra` recorded with chunk `k`.
    pub open spec fn sp_recorded(
        &self,
        start: &CodeSplitter,
        names: Map<Seq<char>, ChunkUkey>,
        i: int,
        extra: Seq<ModuleIdentifier>,
        k: ChunkUkey,
    ) -> bool {
        let c = start.compilation;
        let sp = self.compilation.chunk_graph.split_points();
        let osp = start.compilation.chunk_graph.split_points();
        &&& forall|m: ModuleIdentifier| #[trigger]
            sp.contains_key(m) <==> osp.contains_key(m) || last_lister(&c, m, i) >= 0 || extra.contains(m)
        &&& forall|m: ModuleIdentifier| extra.contains(m) ==> #[trigger] sp[m] == k
        &&& forall|m: ModuleIdentifier|
            !extra.contains(m) && last_lister(&c, m, i) >= 0 ==> #[trigger] sp[m]
                == names[c.entries@[last_lister(&c, m, i)].name@]
        &&& forall|m: ModuleIdentifier|
            !extra.contains(m) && last_lister(&c, m, i) < 0 && osp.contains_key(m) ==> #[trigger] sp[m] == osp[m]
    }

    /// Module `j` of entry `e` of `c` is in the chunk graph as an entry module of the chunk
    /// named after the entry.
    pub open spec fn connected_at(&self, c: &Compilation, e: int, j: int) -> bool {
        let k = self.compilation.named_chunks@[c.entries@[e].name@];
        let cg = self.compilation.chunk_graph;
        let m = entry_mods(c, e)[j];
        &&& cg.has_chunk(k)
        &&& cg.has_module(m)
        &&& cg.entry_modules(k).contains_key(m)
    }

    /// The first `upto` modules of entry `e` of `c` are connected.
    pub open spec fn entry_connected(&self, c: &Compilation, e: int, upto: int) -> bool {
        forall|j: int| 0 <= j < upto ==> #[trigger] self.connected_at(c, e, j)
    }

    /// The modules of the first `i` entries of `c` are connected as entry modules.
    pub open spec fn entries_connected(&self, c: &Compilation, i: int) -> bool {
        forall|e: int|
            0 <= e < i ==> #[trigger] self.entry_connected(c, e, c.entries@[e].dependencies.len() as int)
    }

    /// Entry modules stay connected while chunks, modules and entry modules only grow and
    /// the chunk names they use stay.
    pub proof fn lemma_connected_carry(&self, prev: &CodeSplitter, c: &Compilation, i: int, e0: int, upto: int)
        requires
            prev.entries_connected(c, i),
            0 <= e0 ==> prev.entry_connected(c, e0, upto),
            forall|e: int| 0 <= e < i || (0 <= e0 && e == e0) ==> #[trigger] prev.compilation.named_chunks@.contains_key(c.entries@[e].name@)
                ==> self.compilation.named_chunks@.contains_key(c.entries@[e].name@)
                && self.compilation.named_chunks@[c.entries@[e].name@] == prev.compilation.named_chunks@[c.entries@[e].name@],
            forall|e: int| 0 <= e < i || (0 <= e0 && e == e0) ==> #[trigger] prev.compilation.named_chunks@.contains_key(c.entries@[e].name@),
            forall|k: ChunkUkey| #[trigger] prev.compilation.chunk_graph.has_chunk(k) ==> self.compilation.chunk_graph.has_chunk(k)
                && prev.compilation.chunk_graph.entry_modules(k).dom().subset_of(self.compilation.chunk_graph.entry_modules(k).dom()),
            forall|m: ModuleIdentifier| #[trigger] prev.compilation.chunk_graph.has_module(m) ==> self.compilation.chunk_graph.has_module(m),
        ensures
            self.entries_connected(c, i),
            0 <= e0 ==> self.entry_connected(c, e0, upto),
    {
        assert forall|e: int, j: int| (0 <= e < i || (0 <= e0 && e == e0)) && #[trigger] prev.connected_at(c, e, j)
            implies self.connected_at(c, e, j) by {
            let k = prev.compilation.named_chunks@[c.entries@[e].name@];
            let m = entry_mods(c, e)[j];
            assert(prev.compilation.named_chunks@.contains_key(c.entries@[e].name@));
            assert(self.compilation.named_chunks@[c.entries@[e].name@] == k);
            assert(prev.compilation.chunk_graph.has_chunk(k));
            assert(prev.compilation.chunk_graph.entry_modules(k).dom().contains(m));
            assert(prev.compilation.chunk_graph.entry_modules(k).dom().subset_of(self.compilation.chunk_graph.entry_modules(k).dom()));
            assert(self.compilation.chunk_graph.entry_modules(k).dom().contains(m));
            assert(prev.compilation.chunk_graph.has_module(m));
        }
        assert forall|e: int| 0 <= e < i implies #[trigger] self.entry_connected(c, e, c.entries@[e].dependencies.len() as int) by {
            assert(prev.entry_connected(c, e, c.entries@[e].dependencies.len() as int));
            assert forall|j: int| 0 <= j < c.entries@[e].dependencies.len() implies #[trigger] self.connected_at(c, e, j) by {
                assert(prev.connected_at(c, e, j));
            }
        }
        if 0 <= e0 {
            assert forall|j: int| 0 <= j < upto implies #[trigger] self.connected_at(c, e0, j) by {
                assert(prev.connected_at(c, e0, j));
            }
        }
    }


    /// The last lister of `m` among the first `i` entries is one of them, and lists `m`.
    pub proof fn lemma_last_lister(c: &Compilation, m: ModuleIdentifier, i: int)
        ensures
            last_lister(c, m, i) >= 0 ==> last_lister(c, m, i) < i && lists(c, last_lister(c, m, i), m),
            last_lister(c, m, i) >= -1,
        decreases i,
    {
        if i > 0 && !lists(c, i - 1, m) {
            Self::lemma_last_lister(c, m, i - 1);
        }
    }

    /// The split point records hold over other chunk names that agree on the entry names.
    pub proof fn lemma_sp_names(&self, start: &CodeSplitter, names1: Map<Seq<char>, ChunkUkey>, names2: Map<Seq<char>, ChunkUkey>, i: int, extra: Seq<ModuleIdentifier>, k: ChunkUkey)
        requires
            self.sp_recorded(start, names1, i, extra, k),
            forall|e: int| 0 <= e < i ==> #[trigger] names2[start.compilation.entries@[e].name@] == names1[start.compilation.entries@[e].name@],
        ensures
            self.sp_recorded(start, names2, i, extra, k),
    {
        let c = start.compilation;
        let sp = self.compilation.chunk_graph.split_points();
        assert forall|m: ModuleIdentifier| !extra.contains(m) && last_lister(&c, m, i) >= 0 implies #[trigger] sp[m]
            == names2[c.entries@[last_lister(&c, m, i)].name@] by {
            Self::lemma_last_lister(&c, m, i);
            let e = last_lister(&c, m, i);
            assert(names2[c.entries@[e].name@] == names1[c.entries@[e].name@]);
        }
    }

    /// Recording one more module `x` with chunk `k`.
    pub proof fn lemma_sp_push(&self, prev: &CodeSplitter, start: &CodeSplitter, names: Map<Seq<char>, ChunkUkey>, i: int, extra: Seq<ModuleIdentifier>, x: ModuleIdentifier, k: ChunkUkey)
        requires
            prev.sp_recorded(start, names, i, extra, k),
            self.compilation.chunk_graph.split_points() == prev.compilation.chunk_graph.split_points().insert(x, k),
        ensures
            self.sp_recorded(start, names, i, extra.push(x), k),
    {
        let c = start.compilation;
        let e2 = extra.push(x);
        assert forall|m: ModuleIdentifier| e2.contains(m) <==> extra.contains(m) || m == x by {
            if e2.contains(m) {
                let w = choose|w: int| 0 <= w < e2.len() && e2[w] == m;
                if w < extra.len() {
                    assert(extra[w] == m);
                }
            }
            if extra.contains(m) {
                let w = choose|w: int| 0 <= w < extra.len() && extra[w] == m;
                assert(e2[w] == m);
            }
            if m == x {
                assert(e2[extra.len() as int] == x);
            }
        }
        let sp = self.compilation.chunk_graph.split_points();
        let psp = prev.compilation.chunk_graph.split_points();
        assert forall|m: ModuleIdentifier| e2.contains(m) implies #[trigger] sp[m] == k by {
            if m != x {
                assert(psp[m] == k);
            }
        }
        assert forall|m: ModuleIdentifier| !e2.contains(m) && last_lister(&c, m, i) >= 0 implies #[trigger] sp[m]
            == names[c.entries@[last_lister(&c, m, i)].name@] by {
            assert(psp[m] == names[c.entries@[last_lister(&c, m, i)].name@]);
        }
        assert forall|m: ModuleIdentifier| !e2.contains(m) && last_lister(&c, m, i) < 0 && start.compilation.chunk_graph.split_points().contains_key(m)
            implies #[trigger] sp[m] == start.compilation.chunk_graph.split_points()[m] by {
            assert(psp[m] == start.compilation.chunk_graph.split_points()[m]);
        }
    }

    /// Once the modules that entry `i` lists are recorded with the chunk named after it, the
    /// records are those of the first `i + 1` entries.
    pub proof fn lemma_sp_close(&self, start: &CodeSplitter, names: Map<Seq<char>, ChunkUkey>, i: int, extra: Seq<ModuleIdentifier>, k: ChunkUkey)
        requires
            i >= 0,
            self.sp_recorded(start, names, i, extra, k),
            forall|m: ModuleIdentifier| extra.contains(m) <==> #[trigger] lists(&start.compilation, i, m),
            names[start.compilation.entries@[i].name@] == k,
        ensures
            self.sp_recorded(start, names, i + 1, Seq::empty(), 0),
    {
        let c = start.compilation;
        let sp = self.compilation.chunk_graph.split_points();
        assert forall|m: ModuleIdentifier| #[trigger] sp.contains_key(m) <==> start.compilation.chunk_graph.split_points().contains_key(m)
            || last_lister(&c, m, i + 1) >= 0 || Seq::<ModuleIdentifier>::empty().contains(m) by {
            Self::lemma_last_lister(&c, m, i);
            assert(extra.contains(m) == lists(&c, i, m));
        }
        assert forall|m: ModuleIdentifier| !Seq::<ModuleIdentifier>::empty().contains(m) && last_lister(&c, m, i + 1) >= 0
            implies #[trigger] sp[m] == names[c.entries@[last_lister(&c, m, i + 1)].name@] by {
            assert(extra.contains(m) == lists(&c, i, m));
        }
        assert forall|m: ModuleIdentifier| !Seq::<ModuleIdentifier>::empty().contains(m) && last_lister(&c, m, i + 1) < 0
            && start.compilation.chunk_graph.split_points().contains_key(m) implies #[trigger] sp[m]
            == start.compilation.chunk_graph.split_points()[m] by {
            assert(extra.contains(m) == lists(&c, i, m));
        }
    }


    /// Each split point was split off from a chunk that holds a module importing it, and its
    /// chunk is the only chunk of a group that no entry started; the relations are exactly
    /// those from the chunk of each split point to the chunk it was split off from; and every
    /// group that no entry started is linked to its one parent.
    pub open spec fn law_links(&self) -> bool {
        let from = self.split_from@;
        &&& forall|d: ModuleIdentifier| #[trigger]
            self.split_point_modules@.contains(d) ==> {
                &&& from.contains_key(d)
                &&& exists|x: ModuleIdentifier| self.chunk_has(from[d], x) && #[trigger] self.module_dyn_deps(x).contains(d)
                &&& point_grouped(&self.compilation, d)
            }
        &&& self.edges() == link_edges(self.compilation.chunk_graph.split_points(), from, self.split_point_modules@)
        &&& groups_linked(&self.compilation)
    }

    /// The links hold on when only order indices, queues and chunk members change, and
    /// members only grow.
    pub proof fn lemma_links_frame(&self, old: &CodeSplitter)
        requires
            old.law_links(),
            self.split_point_modules == old.split_point_modules,
            self.split_from == old.split_from,
            self.edges() == old.edges(),
            self.compilation.chunk_graph.split_points() == old.compilation.chunk_graph.split_points(),
            self.num_modules() == old.num_modules(),
            forall|x: ModuleIdentifier| x < old.num_modules() ==> #[trigger] self.module_dyn_deps(x) == old.module_dyn_deps(x),
            forall|c: ChunkUkey, m: ModuleIdentifier| #[trigger] old.chunk_has(c, m) ==> self.chunk_has(c, m),
            self.compilation.num_groups() == old.compilation.num_groups(),
            forall|g: int| 0 <= g < old.compilation.num_groups() ==> {
                &&& (#[trigger] self.compilation.chunk_group_by_ukey@[g]).kind == old.compilation.chunk_group_by_ukey@[g].kind
                &&& self.compilation.chunk_group_by_ukey@[g].parents == old.compilation.chunk_group_by_ukey@[g].parents
                &&& self.compilation.chunk_group_by_ukey@[g].children == old.compilation.chunk_group_by_ukey@[g].children
                &&& old.compilation.chunk_group_by_ukey@[g].kind == ChunkGroupKind::Normal
                    ==> self.compilation.chunk_group_by_ukey@[g].chunks == old.compilation.chunk_group_by_ukey@[g].chunks
            },
        ensures
            self.law_links(),
    {
        assert forall|d: ModuleIdentifier| #[trigger] self.split_point_modules@.contains(d) implies point_grouped(&self.compilation, d) by {
            assert(old.split_point_modules@.contains(d));
            let h = choose|h: int| 0 <= h < old.compilation.num_groups()
                && (#[trigger] old.compilation.chunk_group_by_ukey@[h]).kind == ChunkGroupKind::Normal
                && old.compilation.chunk_group_by_ukey@[h].chunks@ == seq![old.compilation.chunk_graph.split_points()[d]];
            assert(self.compilation.chunk_group_by_ukey@[h].kind == ChunkGroupKind::Normal);
        }
        assert forall|d: ModuleIdentifier| #[trigger] self.split_point_modules@.contains(d) implies
            exists|x: ModuleIdentifier| self.chunk_has(self.split_from@[d], x) && #[trigger] self.module_dyn_deps(x).contains(d) by {
            let x = choose|x: ModuleIdentifier| old.chunk_has(old.split_from@[d], x) && #[trigger] old.module_dyn_deps(x).contains(d);
            assert(self.chunk_has(self.split_from@[d], x));
            assert(self.module_dyn_deps(x) == old.module_dyn_deps(x));
        }
        assert forall|g: int|
            0 <= g < self.compilation.num_groups() && (#[trigger] self.compilation.chunk_group_by_ukey@[g]).kind == ChunkGroupKind::Normal
            implies group_linked(&self.compilation, g) by {
            assert(old.compilation.chunk_group_by_ukey@[g].kind == ChunkGroupKind::Normal);
            assert(group_linked(&old.compilation, g));
            let p = choose|p: ChunkGroupUkey|
                p < old.compilation.num_groups() && old.compilation.chunk_group_by_ukey@[g].parents@ == set![p]
                    && #[trigger] old.compilation.chunk_group_by_ukey@[p as int].children@.contains(g as usize);
            assert(self.compilation.chunk_group_by_ukey@[p as int].children == old.compilation.chunk_group_by_ukey@[p as int].children);
        }
    }


    /// Splitting a chunk off at `x`, from the chunk of `item` whose module imports `x`, keeps
    /// the links.
    pub proof fn lemma_links_split(&self, prev: &CodeSplitter, item: QueueItem, x: ModuleIdentifier, chunk: ChunkUkey, new_group: ChunkGroupUkey)
        requires
            prev.law_links(),
            !prev.split_point_modules@.contains(x),
            self.split_point_modules@ == prev.split_point_modules@.insert(x),
            self.split_from@ == prev.split_from@.insert(x, item.chunk),
            self.edges() == prev.edges().insert((chunk, item.chunk)),
            self.compilation.chunk_graph.split_points() == prev.compilation.chunk_graph.split_points().insert(x, chunk),
            self.num_modules() == prev.num_modules(),
            forall|y: ModuleIdentifier| y < prev.num_modules() ==> #[trigger] self.module_dyn_deps(y) == prev.module_dyn_deps(y),
            forall|c: ChunkUkey, m: ModuleIdentifier| #[trigger] prev.chunk_has(c, m) ==> self.chunk_has(c, m),
            prev.chunk_has(item.chunk, item.module_identifier),
            prev.module_dyn_deps(item.module_identifier).contains(x),
            new_group == prev.compilation.num_groups(),
            self.compilation.num_groups() == prev.compilation.num_groups() + 1,
            item.chunk_group < prev.compilation.num_groups(),
            self.compilation.chunk_group_by_ukey@[new_group as int].parents@ == set![item.chunk_group],
            self.group(item.chunk_group).children@ == prev.group(item.chunk_group).children@.insert(new_group),
            self.group(item.chunk_group).kind == prev.group(item.chunk_group).kind,
            self.group(item.chunk_group).parents == prev.group(item.chunk_group).parents,
            self.group(item.chunk_group).chunks == prev.group(item.chunk_group).chunks,
            self.compilation.chunk_group_by_ukey@[new_group as int].kind == ChunkGroupKind::Normal,
            self.compilation.chunk_group_by_ukey@[new_group as int].chunks@ == seq![chunk],
            forall|h: int| 0 <= h < prev.compilation.num_groups() && h != item.chunk_group ==> #[trigger] self.compilation.chunk_group_by_ukey@[h]
                == prev.compilation.chunk_group_by_ukey@[h],
        ensures
            self.law_links(),
    {
        let g = item.chunk_group;
        let sp = self.compilation.chunk_graph.split_points();
        let psp = prev.compilation.chunk_graph.split_points();
        let from = self.split_from@;
        let pfrom = prev.split_from@;
        assert forall|d: ModuleIdentifier| #[trigger] self.split_point_modules@.contains(d) implies {
            &&& from.contains_key(d)
            &&& exists|y: ModuleIdentifier| self.chunk_has(from[d], y) && #[trigger] self.module_dyn_deps(y).contains(d)
        } by {
            if d == x {
                let m = item.module_identifier;
                assert(self.chunk_has(item.chunk, m));
                assert(self.module_dyn_deps(m) == prev.module_dyn_deps(m));
                assert(self.chunk_has(from[d], m) && self.module_dyn_deps(m).contains(d));
            } else {
                assert(prev.split_point_modules@.contains(d));
                let y = choose|y: ModuleIdentifier| prev.chunk_has(pfrom[d], y) && #[trigger] prev.module_dyn_deps(y).contains(d);
                assert(self.chunk_has(from[d], y));
                assert(self.module_dyn_deps(y) == prev.module_dyn_deps(y));
            }
        }
        assert forall|d: ModuleIdentifier| #[trigger] self.split_point_modules@.contains(d) implies point_grouped(&self.compilation, d) by {
            if d == x {
                assert(self.compilation.chunk_group_by_ukey@[new_group as int].kind == ChunkGroupKind::Normal);
            } else {
                assert(prev.split_point_modules@.contains(d));
                let h = choose|h: int| 0 <= h < prev.compilation.num_groups()
                    && (#[trigger] prev.compilation.chunk_group_by_ukey@[h]).kind == ChunkGroupKind::Normal
                    && prev.compilation.chunk_group_by_ukey@[h].chunks@ == seq![psp[d]];
                assert(self.compilation.chunk_group_by_ukey@[h].kind == ChunkGroupKind::Normal);
            }
        }
        let le = link_edges(sp, from, self.split_point_modules@);
        let ple = link_edges(psp, pfrom, prev.split_point_modules@);
        assert(le =~= ple.insert((chunk, item.chunk))) by {
            assert forall|e: (usize, usize)| le.contains(e) implies ple.insert((chunk, item.chunk)).contains(e) by {
                let d = choose|d: ModuleIdentifier| #[trigger] self.split_point_modules@.contains(d) && e == (sp[d], from[d]);
                if d != x {
                    assert(prev.split_point_modules@.contains(d) && e == (psp[d], pfrom[d]));
                }
            }
            assert forall|e: (usize, usize)| ple.insert((chunk, item.chunk)).contains(e) implies le.contains(e) by {
                if e == (chunk, item.chunk) {
                    assert(self.split_point_modules@.contains(x) && e == (sp[x], from[x]));
                } else {
                    let d = choose|d: ModuleIdentifier| #[trigger] prev.split_point_modules@.contains(d) && e == (psp[d], pfrom[d]);
                    assert(d != x);
                    assert(self.split_point_modules@.contains(d) && e == (sp[d], from[d]));
                }
            }
        }
        assert forall|h: int|
            0 <= h < self.compilation.num_groups() && (#[trigger] self.compilation.chunk_group_by_ukey@[h]).kind == ChunkGroupKind::Normal
            implies group_linked(&self.compilation, h) by {
            if h == new_group {
                assert(self.compilation.chunk_group_by_ukey@[g as int].children@.contains(h as usize));
            } else {
                assert(prev.compilation.chunk_group_by_ukey@[h].kind == ChunkGroupKind::Normal);
                assert(group_linked(&prev.compilation, h));
                let p = choose|p: ChunkGroupUkey|
                    p < prev.compilation.num_groups() && prev.compilation.chunk_group_by_ukey@[h].parents@ == set![p]
                        && #[trigger] prev.compilation.chunk_group_by_ukey@[p as int].children@.contains(h as usize);
                assert(self.compilation.chunk_group_by_ukey@[p as int].children@.contains(h as usize));
            }
        }
    }


    /// The order counters count the modules that have an index.
    pub open spec fn law_counts(&self) -> bool {
        &&& self.next_free_module_pre_order_index == pre_indexed(&self.compilation).len()
        &&& self.next_free_module_post_order_index == post_indexed(&self.compilation).len()
    }


    /// Chunk `k` has a name, which names it, and its id is its name.
    pub open spec fn chunk_id_named(&self, k: ChunkUkey) -> bool {
        let ch = self.compilation.chunk_by_ukey@[k as int];
        &&& ch.name is Some
        &&& ch.id is Some
        &&& ch.id.unwrap()@ == ch.name.unwrap()@
        &&& self.compilation.named_chunks@.contains_key(ch.name.unwrap()@)
        &&& self.compilation.named_chunks@[ch.name.unwrap()@] == k
    }

    /// Every chunk has a name, which names it, and its id is its name.
    pub open spec fn law_chunk_ids(&self) -> bool {
        self.new_chunks_id_named(0)
    }

    /// Every chunk from `from` on has a name, which names it, and its id is its name.
    pub open spec fn new_chunks_id_named(&self, from: nat) -> bool {
        forall|k: ChunkUkey| from <= k < self.num_chunks() ==> #[trigger] self.chunk_id_named(k)
    }

    /// Chunks from `from` on stay named while records keep their names and ids, chunk names
    /// keep their chunks, and every chunk added is named.
    pub proof fn lemma_id_named_carry(&self, prev: &CodeSplitter, from: nat)
        requires
            prev.new_chunks_id_named(from),
            prev.num_chunks() <= self.num_chunks(),
            forall|c: int| 0 <= c < prev.num_chunks() ==> (#[trigger] self.compilation.chunk_by_ukey@[c]).name
                == prev.compilation.chunk_by_ukey@[c].name && self.compilation.chunk_by_ukey@[c].id == prev.compilation.chunk_by_ukey@[c].id,
            forall|n: Seq<char>| #[trigger] prev.compilation.named_chunks@.contains_key(n) ==> self.compilation.named_chunks@.contains_key(n)
                && self.compilation.named_chunks@[n] == prev.compilation.named_chunks@[n],
            forall|k: ChunkUkey| prev.num_chunks() <= k < self.num_chunks() ==> #[trigger] self.chunk_id_named(k),
        ensures
            self.new_chunks_id_named(from),
    {
        assert forall|k: ChunkUkey| from <= k < self.num_chunks() implies #[trigger] self.chunk_id_named(k) by {
            if k < prev.num_chunks() {
                assert(prev.chunk_id_named(k));
                assert(self.compilation.chunk_by_ukey@[k as int].name == prev.compilation.chunk_by_ukey@[k as int].name);
                let n = prev.compilation.chunk_by_ukey@[k as int].name.unwrap()@;
                assert(prev.compilation.named_chunks@.contains_key(n));
            }
        }
    }

    /// Some chunk name names chunk `k`.
    pub open spec fn chunk_named(&self, k: ChunkUkey) -> bool {
        exists|n: Seq<char>| #[trigger] self.compilation.named_chunks@.contains_key(n) && self.compilation.named_chunks@[n] == k
    }

    /// The chunk names name different chunks, every chunk has a name, each split point's chunk
    /// is the one named by its chunk name, every chunk name is an entry's, a runtime's or a
    /// split point's, and every split point is imported dynamically; where the modules imported dynamically
    /// have chunk names of their own, each split point's chunk comes after the chunk it was
    /// split off from.
    pub open spec fn law_names(&self) -> bool {
        let c = &self.compilation;
        let nc = self.compilation.named_chunks@;
        let sp = self.compilation.chunk_graph.split_points();
        let points = self.split_point_modules@;
        &&& forall|n1: Seq<char>, n2: Seq<char>|
            #[trigger] nc.contains_key(n1) && #[trigger] nc.contains_key(n2) && n1 != n2 ==> nc[n1] != nc[n2]
        &&& forall|k: ChunkUkey| k < self.num_chunks() ==> #[trigger] self.chunk_named(k)
        &&& forall|d: ModuleIdentifier| #[trigger]
            points.contains(d) ==> {
                &&& nc.contains_key(name_of(c, d))
                &&& sp.contains_key(d)
                &&& sp[d] == nc[name_of(c, d)]
                &&& dyn_imported(c, d)
            }
        &&& forall|n: Seq<char>| #[trigger]
            nc.contains_key(n) ==> entry_names(c).contains(n) || exists|d: ModuleIdentifier|
                #[trigger] points.contains(d) && name_of(c, d) == n
        &&& dyn_names_fresh(c) ==> forall|d: ModuleIdentifier| #[trigger]
            points.contains(d) ==> self.split_from@[d] < sp[d]
    }

    /// The chunk names hold on when they, the split points, their chunks, the chunks they
    /// were split from, the entries and the modules' names and imports stay.
    pub proof fn lemma_names_frame(&self, old: &CodeSplitter)
        requires
            old.law_names(),
            self.compilation.named_chunks == old.compilation.named_chunks,
            self.num_chunks() == old.num_chunks(),
            self.compilation.chunk_graph.split_points() == old.compilation.chunk_graph.split_points(),
            self.split_point_modules == old.split_point_modules,
            self.split_from == old.split_from,
            self.compilation.entries == old.compilation.entries,
            self.num_modules() == old.num_modules(),
            forall|x: int| 0 <= x < old.num_modules() ==> {
                &&& (#[trigger] self.compilation.module_graph.modules@[x]).chunk_name == old.compilation.module_graph.modules@[x].chunk_name
                &&& self.compilation.module_graph.modules@[x].dynamic_dependencies == old.compilation.module_graph.modules@[x].dynamic_dependencies
            },
        ensures
            self.law_names(),
    {
        let c = &self.compilation;
        let oc = &old.compilation;
        assert forall|d: ModuleIdentifier| d < old.num_modules() implies name_of(c, d) == name_of(oc, d) && (dyn_imported(c, d) == dyn_imported(oc, d)) by {
            assert(self.compilation.module_graph.modules@[d as int].chunk_name == old.compilation.module_graph.modules@[d as int].chunk_name);
            if dyn_imported(c, d) {
                let x = choose|x: int| 0 <= x < c.num_modules() && #[trigger] c.module_graph.modules@[x].dynamic_dependencies@.contains(d);
                assert(oc.module_graph.modules@[x].dynamic_dependencies@.contains(d));
            }
            if dyn_imported(oc, d) {
                let x = choose|x: int| 0 <= x < oc.num_modules() && #[trigger] oc.module_graph.modules@[x].dynamic_dependencies@.contains(d);
                assert(c.module_graph.modules@[x].dynamic_dependencies@.contains(d));
            }
        }
        assert forall|d: ModuleIdentifier| d >= old.num_modules() implies !dyn_imported(c, d) && !dyn_imported(oc, d) by {}
        assert forall|k: ChunkUkey| k < self.num_chunks() implies #[trigger] self.chunk_named(k) by {
            assert(old.chunk_named(k));
        }
        assert(entry_names(c) =~= entry_names(oc));
        if dyn_names_fresh(c) {
            assert forall|d1: ModuleIdentifier, d2: ModuleIdentifier|
                #[trigger] dyn_imported(oc, d1) && #[trigger] dyn_imported(oc, d2) && d1 != d2 implies name_of(oc, d1) != name_of(oc, d2) by {
                assert(dyn_imported(c, d1) && dyn_imported(c, d2));
                assert(name_of(c, d1) == name_of(oc, d1) && name_of(c, d2) == name_of(oc, d2));
            }
            assert forall|d: ModuleIdentifier| #[trigger] dyn_imported(oc, d) implies !entry_names(oc).contains(name_of(oc, d)) by {
                assert(dyn_imported(c, d));
                assert(name_of(c, d) == name_of(oc, d));
            }
            assert(dyn_names_fresh(oc));
        }
        assert forall|d: ModuleIdentifier| #[trigger] self.split_point_modules@.contains(d) implies {
            &&& self.compilation.named_chunks@.contains_key(name_of(c, d))
            &&& self.compilation.chunk_graph.split_points().contains_key(d)
            &&& self.compilation.chunk_graph.split_points()[d] == self.compilation.named_chunks@[name_of(c, d)]
            &&& dyn_imported(c, d)
        } by {
            assert(name_of(c, d) == name_of(oc, d));
            assert(dyn_imported(oc, d));
        }
        assert forall|n: Seq<char>| #[trigger] self.compilation.named_chunks@.contains_key(n) implies entry_names(c).contains(n)
            || exists|d: ModuleIdentifier| #[trigger] self.split_point_modules@.contains(d) && name_of(c, d) == n by {
            if !entry_names(oc).contains(n) {
                let d = choose|d: ModuleIdentifier| #[trigger] old.split_point_modules@.contains(d) && name_of(oc, d) == n;
                assert(name_of(c, d) == name_of(oc, d));
            }
        }
    }


    /// Splitting a chunk off at `x`, imported dynamically by the module of `item`, under the
    /// chunk named by `x`'s chunk name, keeps the chunk names in order.
    pub proof fn lemma_names_split(&self, prev: &CodeSplitter, item: QueueItem, x: ModuleIdentifier, chunk: ChunkUkey)
        requires
            prev.law_names(),
            prev.compilation.wf(),
            item.chunk < prev.num_chunks(),
            item.module_identifier < prev.num_modules(),
            x < prev.num_modules(),
            prev.module_dyn_deps(item.module_identifier).contains(x),
            !prev.split_point_modules@.contains(x),
            self.split_point_modules@ == prev.split_point_modules@.insert(x),
            self.split_from@ == prev.split_from@.insert(x, item.chunk),
            self.compilation.chunk_graph.split_points() == prev.compilation.chunk_graph.split_points().insert(x, chunk),
            self.compilation.entries == prev.compilation.entries,
            self.compilation.module_graph == prev.compilation.module_graph,
            ({
                let name = name_of(&prev.compilation, x);
                &&& prev.compilation.named_chunks@.contains_key(name) ==> self.compilation.named_chunks@
                    == prev.compilation.named_chunks@
                &&& !prev.compilation.named_chunks@.contains_key(name) ==> self.compilation.named_chunks@
                    == prev.compilation.named_chunks@.insert(name, prev.num_chunks() as usize)
                &&& self.compilation.named_chunks@.contains_key(name)
                &&& self.compilation.named_chunks@[name] == chunk
                &&& self.num_chunks() == if prev.compilation.named_chunks@.contains_key(name) {
                    prev.num_chunks()
                } else {
                    prev.num_chunks() + 1
                }
            }),
        ensures
            self.law_names(),
    {
        let c = &self.compilation;
        let pc = &prev.compilation;
        let nc = self.compilation.named_chunks@;
        let pnc = prev.compilation.named_chunks@;
        let name = name_of(pc, x);
        assert(entry_names(c) =~= entry_names(pc));
        assert forall|d: ModuleIdentifier| #[trigger] dyn_imported(c, d) == dyn_imported(pc, d) by {}
        assert(dyn_imported(pc, x)) by {
            let m = item.module_identifier;
            assert(pc.module_graph.modules@[m as int].dynamic_dependencies@.contains(x));
        }
        assert forall|n1: Seq<char>, n2: Seq<char>|
            #[trigger] nc.contains_key(n1) && #[trigger] nc.contains_key(n2) && n1 != n2 implies nc[n1] != nc[n2] by {
            if !pnc.contains_key(name) {
                if n1 == name {
                    assert(pnc[n2] < prev.num_chunks());
                } else if n2 == name {
                    assert(pnc[n1] < prev.num_chunks());
                } else {
                    assert(pnc.contains_key(n1) && pnc.contains_key(n2));
                }
            } else {
                assert(pnc.contains_key(n1) && pnc.contains_key(n2));
            }
        }
        assert forall|k: ChunkUkey| k < self.num_chunks() implies #[trigger] self.chunk_named(k) by {
            if k < prev.num_chunks() {
                assert(prev.chunk_named(k));
                let n = choose|n: Seq<char>| #[trigger] pnc.contains_key(n) && pnc[n] == k;
                assert(nc.contains_key(n) && nc[n] == k);
            } else {
                assert(nc.contains_key(name) && nc[name] == k);
            }
        }
        assert forall|n: Seq<char>| #[trigger] nc.contains_key(n) implies entry_names(c).contains(n)
            || exists|d: ModuleIdentifier| #[trigger] self.split_point_modules@.contains(d) && name_of(c, d) == n by {
            if n == name {
                assert(self.split_point_modules@.contains(x) && name_of(c, x) == n);
            } else {
                assert(pnc.contains_key(n));
                if !entry_names(pc).contains(n) {
                    let d = choose|d: ModuleIdentifier| #[trigger] prev.split_point_modules@.contains(d) && name_of(pc, d) == n;
                    assert(self.split_point_modules@.contains(d));
                }
            }
        }
        if dyn_names_fresh(c) {
            assert forall|d1: ModuleIdentifier, d2: ModuleIdentifier|
                #[trigger] dyn_imported(pc, d1) && #[trigger] dyn_imported(pc, d2) && d1 != d2 implies name_of(pc, d1) != name_of(pc, d2) by {
                assert(dyn_imported(c, d1) && dyn_imported(c, d2));
            }
            assert forall|d: ModuleIdentifier| #[trigger] dyn_imported(pc, d) implies !entry_names(pc).contains(name_of(pc, d)) by {
                assert(dyn_imported(c, d));
            }
            assert(dyn_names_fresh(pc));
            assert(!pnc.contains_key(name)) by {
                if pnc.contains_key(name) {
                    if !entry_names(pc).contains(name) {
                        let d = choose|d: ModuleIdentifier| #[trigger] prev.split_point_modules@.contains(d) && name_of(pc, d) == name;
                        assert(dyn_imported(pc, d));
                        assert(d != x);
                    }
                }
            }
            assert(chunk == prev.num_chunks());
        }
    }


    /// Every module with a pre-order index is in some chunk.
    pub open spec fn law_indexed(&self) -> bool {
        forall|m: ModuleIdentifier|
            m < self.num_modules() && (#[trigger] self.module_pre(m)) is Some ==> exists|c: ChunkUkey| #[trigger] self.chunk_has(c, m)
    }

    /// Indexed modules stay in chunks while memberships only grow and every newly indexed
    /// module is in a chunk.
    pub proof fn lemma_indexed_frame(&self, old: &CodeSplitter)
        requires
            old.law_indexed(),
            self.num_modules() == old.num_modules(),
            forall|c: ChunkUkey, m: ModuleIdentifier| #[trigger] old.chunk_has(c, m) ==> self.chunk_has(c, m),
            forall|m: ModuleIdentifier|
                m < self.num_modules() && (#[trigger] self.module_pre(m)) is Some && old.module_pre(m) is None
                    ==> exists|c: ChunkUkey| #[trigger] self.chunk_has(c, m),
        ensures
            self.law_indexed(),
    {
        assert forall|m: ModuleIdentifier| m < self.num_modules() && (#[trigger] self.module_pre(m)) is Some
            implies exists|c: ChunkUkey| #[trigger] self.chunk_has(c, m) by {
            if old.module_pre(m) is Some {
                let c = choose|c: ChunkUkey| #[trigger] old.chunk_has(c, m);
                assert(self.chunk_has(c, m));
            }
        }
    }

    /// Naming one more chunk `n` keeps the names grown, now by `names` and `n`.
    pub proof fn lemma_names_grown_add(&self, prev: &CodeSplitter, start: &CodeSplitter, names: Set<Seq<char>>, n: Seq<char>)
        requires
            prev.names_grown(start, names),
            prev.compilation.wf(),
            start.num_chunks() <= prev.num_chunks(),
            prev.compilation.named_chunks@.contains_key(n) ==> self.compilation.named_chunks@
                == prev.compilation.named_chunks@ && self.num_chunks() == prev.num_chunks(),
            !prev.compilation.named_chunks@.contains_key(n) ==> self.compilation.named_chunks@
                == prev.compilation.named_chunks@.insert(n, prev.num_chunks() as usize) && self.num_chunks()
                == prev.num_chunks() + 1,
        ensures
            self.names_grown(start, names.insert(n)),
    {
        let nc = self.compilation.named_chunks@;
        let pnc = prev.compilation.named_chunks@;
        let onc = start.compilation.named_chunks@;
        assert(nc.dom() =~= onc.dom().union(names.insert(n)));
        assert forall|c: ChunkUkey| start.num_chunks() <= c < self.num_chunks() implies #[trigger] self.named_new(start, c) by {
            if c < prev.num_chunks() {
                assert(prev.named_new(start, c));
                let w = choose|w: Seq<char>| #[trigger] pnc.contains_key(w) && !onc.contains_key(w) && pnc[w] == c;
                assert(nc.contains_key(w) && nc[w] == c);
            } else {
                assert(nc.contains_key(n) && !onc.contains_key(n) && nc[n] == c);
            }
        }
        assert forall|n1: Seq<char>, n2: Seq<char>|
            #[trigger] nc.contains_key(n1) && #[trigger] nc.contains_key(n2) && !onc.contains_key(n1) && n1 != n2
                implies nc[n1] != nc[n2] by {
            if !pnc.contains_key(n) {
                if n1 == n {
                    assert(pnc[n2] < prev.num_chunks());
                } else if n2 == n {
                    assert(pnc[n1] < prev.num_chunks());
                } else {
                    assert(pnc.contains_key(n1) && pnc.contains_key(n2));
                }
            } else {
                assert(pnc.contains_key(n1) && pnc.contains_key(n2));
            }
        }
    }


    /// The names stay grown when neither the names nor the number of chunks change.
    pub proof fn lemma_names_grown_same(&self, prev: &CodeSplitter, start: &CodeSplitter, names: Set<Seq<char>>)
        requires
            prev.names_grown(start, names),
            self.compilation.named_chunks@ == prev.compilation.named_chunks@,
            self.num_chunks() == prev.num_chunks(),
        ensures
            self.names_grown(start, names),
    {
        assert forall|c: ChunkUkey| start.num_chunks() <= c < self.num_chunks() implies #[trigger] self.named_new(start, c) by {
            assert(prev.named_new(start, c));
        }
    }

    /// The entry groups below `upto` stay as they are when their groups, the entries and
    /// the chunk names they use do.
    pub proof fn lemma_entry_groups_carry(&self, prev: &CodeSplitter, n0: nat, upto: int, placed_below: int)
        requires
            forall|e: int| 0 <= e < upto ==> #[trigger] prev.entry_group_is(n0, e, placed_below),
            self.compilation.entries == prev.compilation.entries,
            forall|e: int| 0 <= e < upto ==> #[trigger] self.compilation.chunk_group_by_ukey@[n0 + e]
                == prev.compilation.chunk_group_by_ukey@[n0 + e],
            forall|n: Seq<char>| #[trigger] prev.compilation.named_chunks@.contains_key(n)
                ==> self.compilation.named_chunks@.contains_key(n)
                && self.compilation.named_chunks@[n] == prev.compilation.named_chunks@[n],
        ensures
            forall|e: int| 0 <= e < upto ==> #[trigger] self.entry_group_is(n0, e, placed_below),
    {
        assert forall|e: int| 0 <= e < upto implies #[trigger] self.entry_group_is(n0, e, placed_below) by {
            assert(prev.entry_group_is(n0, e, placed_below));
            assert(self.compilation.chunk_group_by_ukey@[n0 + e] == prev.compilation.chunk_group_by_ukey@[n0 + e]);
        }
    }

    /// Chunk `c` is named by a name that `old` does not have.
    pub open spec fn named_new(&self, old: &CodeSplitter, c: ChunkUkey) -> bool {
        exists|n: Seq<char>|
            #[trigger] self.compilation.named_chunks@.contains_key(n) && !old.compilation.named_chunks@.contains_key(n)
                && self.compilation.named_chunks@[n] == c
    }
}

impl CodeSplitter {
    /// All but the order indices, the counters and the queue are as in `old`.
    pub open spec fn same_but_orders(&self, old: &CodeSplitter) -> bool {
        &&& self.compilation.chunk_by_ukey == old.compilation.chunk_by_ukey
        &&& self.compilation.chunk_graph == old.compilation.chunk_graph
        &&& self.compilation.named_chunks == old.compilation.named_chunks
        &&& self.compilation.named_chunk_groups == old.compilation.named_chunk_groups
        &&& self.compilation.entrypoints == old.compilation.entrypoints
        &&& self.compilation.entries == old.compilation.entries
        &&& self.compilation.module_graph.dependency_modules
            == old.compilation.module_graph.dependency_modules
        &&& self.num_modules() == old.num_modules()
        &&& self.compilation.num_groups() == old.compilation.num_groups()
        &&& self.queue_delayed == old.queue_delayed
        &&& self.split_point_modules == old.split_point_modules
        &&& self.split_from == old.split_from
        &&& self.chunk_relation_graph == old.chunk_relation_graph
        &&& forall|m: int|
            0 <= m < old.num_modules() ==> same_module_but_orders(
                old.compilation.module_graph.modules@[m],
                #[trigger] self.compilation.module_graph.modules@[m],
            )
        &&& forall|g: int|
            0 <= g < old.compilation.num_groups() ==> same_group_but_orders(
                old.compilation.chunk_group_by_ukey@[g],
                #[trigger] self.compilation.chunk_group_by_ukey@[g],
            )
    }

    /// Only the pre-order indices of the module of `item` changed from `old`: in its group
    /// and overall, it got the next index where it had none, and that counter moved on.
    pub open spec fn pre_entered(&self, old: &CodeSplitter, item: QueueItem) -> bool {
        let g = item.chunk_group;
        let m = item.module_identifier;
        let og = old.group(g);
        let ng = self.group(g);
        &&& self.same_but_orders(old)
        &&& self.next_free_module_post_order_index == old.next_free_module_post_order_index
        &&& ng.module_pre_order_indices@ == numbered(
            og.module_pre_order_indices@,
            m,
            og.next_pre_order_index,
        )
        &&& ng.next_pre_order_index == counted(
            og.module_pre_order_indices@,
            m,
            og.next_pre_order_index,
        )
        &&& ng.module_post_order_indices == og.module_post_order_indices
        &&& ng.next_post_order_index == og.next_post_order_index
        &&& forall|h: int|
            0 <= h < old.compilation.num_groups() && h != g ==> #[trigger] self.compilation.chunk_group_by_ukey@[h]
                == old.compilation.chunk_group_by_ukey@[h]
        &&& self.module_pre(m) == numbered_opt(old.module_pre(m), old.next_free_module_pre_order_index)
        &&& self.next_free_module_pre_order_index == counted_opt(
            old.module_pre(m),
            old.next_free_module_pre_order_index,
        )
        &&& forall|x: ModuleIdentifier| x < old.num_modules() ==> #[trigger] self.module_post(x) == old.module_post(x)
        &&& forall|x: ModuleIdentifier|
            x < old.num_modules() && x != m ==> #[trigger] self.module_pre(x) == old.module_pre(x)
    }

    /// Only the post-order indices of the module of `item` changed from `old`: in its group
    /// and overall, it got the next index where it had none, and that counter moved on.
    pub open spec fn post_left(&self, old: &CodeSplitter, item: QueueItem) -> bool {
        let g = item.chunk_group;
        let m = item.module_identifier;
        let og = old.group(g);
        let ng = self.group(g);
        &&& self.same_but_orders(old)
        &&& self.next_free_module_pre_order_index == old.next_free_module_pre_order_index
        &&& ng.module_post_order_indices@ == numbered(
            og.module_post_order_indices@,
            m,
            og.next_post_order_index,
        )
        &&& ng.next_post_order_index == counted(
            og.module_post_order_indices@,
            m,
            og.next_post_order_index,
        )
        &&& ng.module_pre_order_indices == og.module_pre_order_indices
        &&& ng.next_pre_order_index == og.next_pre_order_index
        &&& forall|h: int|
            0 <= h < old.compilation.num_groups() && h != g ==> #[trigger] self.compilation.chunk_group_by_ukey@[h]
                == old.compilation.chunk_group_by_ukey@[h]
        &&& self.module_post(m) == numbered_opt(old.module_post(m), old.next_free_module_post_order_index)
        &&& self.next_free_module_post_order_index == counted_opt(
            old.module_post(m),
            old.next_free_module_post_order_index,
        )
        &&& forall|x: ModuleIdentifier| x < old.num_modules() ==> #[trigger] self.module_pre(x) == old.module_pre(x)
        &&& forall|x: ModuleIdentifier|
            x < old.num_modules() && x != m ==> #[trigger] self.module_post(x) == old.module_post(x)
    }


    /// The chunk a module split off at gets: the chunk named by its chunk name.
    pub open spec fn split_chunk(&self, d: ModuleIdentifier) -> ChunkUkey {
        self.compilation.named_chunks@[self.compilation.module_graph.modules@[d as int].chunk_name@]
    }

    /// The delayed items that start the chunks split off at `fresh`, one new group each,
    /// the groups numbered on from those of `old`.
    pub open spec fn split_items(&self, old: &CodeSplitter, fresh: Seq<ModuleIdentifier>) -> Seq<QueueItem> {
        Seq::new(
            fresh.len(),
            |i: int|
                QueueItem {
                    action: QueueAction::AddAndEnter,
                    chunk_group: (old.compilation.num_groups() + i) as usize,
                    chunk: self.split_chunk(fresh[i]),
                    module_identifier: fresh[i],
                },
        )
    }

    /// The relations from the chunks split off at `fresh` to chunk `c`.
    pub open spec fn split_edges(&self, fresh: Seq<ModuleIdentifier>, c: ChunkUkey) -> Set<(usize, usize)> {
        Set::new(
            |e: (usize, usize)|
                exists|i: int| 0 <= i < fresh.len() && e == (#[trigger] self.split_chunk(fresh[i]), c),
        )
    }

    /// The groups numbered from `n0` on, for `len` of them.
    pub open spec fn group_range(n0: nat, len: nat) -> Set<ChunkGroupUkey> {
        Set::new(|h: ChunkGroupUkey| n0 <= h < n0 + len)
    }

    /// `self` is `old` after the chunks at the modules of `fresh` were split off from the
    /// chunk of `item`: each one gets its split point record, its chunk (found or made by its
    /// name), a relation to the chunk of `item`, a new group that is a child of the group of
    /// `item` and holds the chunk, and a delayed item that starts it.
    pub open spec fn split_off(&self, old: &CodeSplitter, item: QueueItem, fresh: Seq<ModuleIdentifier>) -> bool {
        let n0 = old.compilation.num_groups();
        let g = item.chunk_group;
        let sp = self.compilation.chunk_graph.split_points();
        let osp = old.compilation.chunk_graph.split_points();
        &&& self.queue_delayed@ == old.queue_delayed@ + self.split_items(old, fresh)
        &&& self.split_point_modules@ == old.split_point_modules@.union(fresh.to_set())
        &&& self.split_from@ == old.split_from@.union_prefer_right(
            Map::new(|d: ModuleIdentifier| fresh.contains(d), |d: ModuleIdentifier| item.chunk),
        )
        &&& self.edges() == old.edges().union(self.split_edges(fresh, item.chunk))
        &&& forall|d: ModuleIdentifier| #[trigger]
            sp.contains_key(d) <==> osp.contains_key(d) || fresh.contains(d)
        &&& forall|i: int| 0 <= i < fresh.len() ==> sp[#[trigger] fresh[i]] == self.split_chunk(fresh[i])
        &&& forall|d: ModuleIdentifier| #[trigger]
            osp.contains_key(d) && !fresh.contains(d) ==> sp[d] == osp[d]
        &&& forall|n: Seq<char>| #[trigger]
            old.compilation.named_chunks@.contains_key(n) ==> self.compilation.named_chunks@.contains_key(n)
                && self.compilation.named_chunks@[n] == old.compilation.named_chunks@[n]
        &&& forall|i: int| 0 <= i < fresh.len() ==> self.compilation.named_chunks@.contains_key(
            self.compilation.module_graph.modules@[#[trigger] fresh[i] as int].chunk_name@)
        &&& self.compilation.num_groups() == n0 + fresh.len()
        &&& forall|i: int|
            0 <= i < fresh.len() ==> {
                let ng = #[trigger] self.compilation.chunk_group_by_ukey@[n0 + i];
                &&& ng.ukey == n0 + i
                &&& ng.kind == ChunkGroupKind::Normal
                &&& ng.parents@ == set![g]
                &&& ng.children@ == Set::<ChunkGroupUkey>::empty()
                &&& ng.chunks@ == seq![self.split_chunk(fresh[i])]
                &&& ng.module_pre_order_indices@ == Map::<ModuleIdentifier, usize>::empty()
                &&& ng.module_post_order_indices@ == Map::<ModuleIdentifier, usize>::empty()
                &&& ng.next_pre_order_index == 0
                &&& ng.next_post_order_index == 0
                &&& ng.runtime is None
                &&& ng.entry_point_chunk is None
                &&& ng.runtime_chunk is None
                &&& ng.name is None
            }
        &&& fresh.len() > 0 ==> {
            &&& g < n0
            &&& self.group(g).children@ == old.group(g).children@.union(Self::group_range(n0, fresh.len()))
            &&& self.group(g).same_except_chunks_children(old.group(g))
            &&& self.group(g).chunks == old.group(g).chunks
        }
        &&& forall|h: int|
            0 <= h < n0 && (h != g || fresh.len() == 0) ==> #[trigger] self.compilation.chunk_group_by_ukey@[h]
                == old.compilation.chunk_group_by_ukey@[h]
    }



    /// The chunk names of the modules of `fresh`.
    pub open spec fn fresh_names(&self, fresh: Seq<ModuleIdentifier>) -> Set<Seq<char>> {
        Set::new(
            |n: Seq<char>|
                exists|i: int|
                    0 <= i < fresh.len() && n == #[trigger] self.compilation.module_graph.modules@[fresh[i] as int].chunk_name@,
        )
    }

    /// The chunks of `self` after chunks were split off at the modules of `fresh` from `old`:
    /// the chunk names grew by their names, each name that was new naming a new chunk of its
    /// own that has no runtime and holds nothing; the chunks of `old` keep their names and
    /// runtimes, and their modules and entry modules; the modules' records are unchanged.
    pub open spec fn chunks_split(&self, old: &CodeSplitter, fresh: Seq<ModuleIdentifier>) -> bool {
        let cg = self.compilation.chunk_graph;
        let ocg = old.compilation.chunk_graph;
        &&& self.names_grown(old, self.fresh_names(fresh))
        &&& forall|c: int|
            0 <= c < old.num_chunks() ==> {
                let nc = #[trigger] self.compilation.chunk_by_ukey@[c];
                let oc = old.compilation.chunk_by_ukey@[c];
                &&& nc.ukey == oc.ukey
                &&& nc.name == oc.name
                &&& nc.id == oc.id
                &&& nc.runtime == oc.runtime
            }
        &&& forall|c: int|
            old.num_chunks() <= c < self.num_chunks() ==> {
                let nc = #[trigger] self.compilation.chunk_by_ukey@[c];
                &&& nc.ukey == c
                &&& nc.name is Some
                &&& self.compilation.named_chunks@.contains_key(nc.name.unwrap()@)
                &&& self.compilation.named_chunks@[nc.name.unwrap()@] == c
                &&& nc.runtime@.len() == 0
            }
        &&& forall|c: ChunkUkey| #[trigger]
            cg.has_chunk(c) <==> ocg.has_chunk(c) || (old.num_chunks() <= c < self.num_chunks())
        &&& forall|c: ChunkUkey| #[trigger]
            ocg.has_chunk(c) ==> cg.chunk_modules(c) == ocg.chunk_modules(c) && cg.entry_modules(c) == ocg.entry_modules(c)
        &&& forall|c: ChunkUkey|
            cg.has_chunk(c) && !ocg.has_chunk(c) ==> #[trigger] cg.chunk_modules(c) == Set::<ModuleIdentifier>::empty()
                && cg.entry_modules(c) == Map::<ModuleIdentifier, ChunkGroupUkey>::empty()
        &&& cg.chunk_graph_module_by_module_identifier == ocg.chunk_graph_module_by_module_identifier
    }

    /// Splitting one more chunk off, at `x`, extends the chunks split off at `p` to `p.push(x)`.
    pub proof fn lemma_chunks_split_step(&self, prev: &CodeSplitter, old: &CodeSplitter, p: Seq<ModuleIdentifier>, x: ModuleIdentifier, chunk: ChunkUkey)
        requires
            prev.chunks_split(old, p),
            prev.compilation.wf(),
            old.num_chunks() <= prev.num_chunks(),
            self.compilation.module_graph == prev.compilation.module_graph,
            ({
                let name = prev.compilation.module_graph.modules@[x as int].chunk_name@;
                &&& prev.compilation.named_chunks@.contains_key(name) ==> {
                    &&& self.compilation.named_chunks@ == prev.compilation.named_chunks@
                    &&& self.num_chunks() == prev.num_chunks()
                }
                &&& !prev.compilation.named_chunks@.contains_key(name) ==> {
                    &&& self.compilation.named_chunks@ == prev.compilation.named_chunks@.insert(name, prev.num_chunks() as usize)
                    &&& self.num_chunks() == prev.num_chunks() + 1
                    &&& self.compilation.chunk_by_ukey@[prev.num_chunks() as int].ukey == prev.num_chunks()
                    &&& self.compilation.chunk_by_ukey@[prev.num_chunks() as int].name is Some
                    &&& self.compilation.chunk_by_ukey@[prev.num_chunks() as int].name.unwrap()@ == name
                    &&& self.compilation.chunk_by_ukey@[prev.num_chunks() as int].runtime@.len() == 0
                }
                &&& self.compilation.named_chunks@.contains_key(name)
                &&& self.compilation.named_chunks@[name] == chunk
            }),
            forall|c: int| 0 <= c < prev.num_chunks() ==> {
                let nc = #[trigger] self.compilation.chunk_by_ukey@[c];
                let pc = prev.compilation.chunk_by_ukey@[c];
                &&& nc.ukey == pc.ukey
                &&& nc.name == pc.name
                &&& nc.id == pc.id
                &&& nc.runtime == pc.runtime
            },
            self.compilation.chunk_graph.chunk_graph_chunk_by_chunk_ukey@ == (if prev.compilation.chunk_graph.has_chunk(chunk) {
                prev.compilation.chunk_graph.chunk_graph_chunk_by_chunk_ukey@
            } else {
                prev.compilation.chunk_graph.chunk_graph_chunk_by_chunk_ukey@.insert(
                    chunk,
                    self.compilation.chunk_graph.chunk_graph_chunk_by_chunk_ukey@[chunk],
                )
            }),
            !prev.compilation.chunk_graph.has_chunk(chunk) ==> self.compilation.chunk_graph.chunk_modules(chunk) == Set::<ModuleIdentifier>::empty()
                && self.compilation.chunk_graph.entry_modules(chunk) == Map::<ModuleIdentifier, ChunkGroupUkey>::empty(),
            self.compilation.chunk_graph.chunk_graph_module_by_module_identifier == prev.compilation.chunk_graph.chunk_graph_module_by_module_identifier,
        ensures
            self.chunks_split(old, p.push(x)),
    {
        let name = prev.compilation.module_graph.modules@[x as int].chunk_name@;
        let f = p.push(x);
        self.lemma_names_grown_add(prev, old, prev.fresh_names(p), name);
        assert(self.fresh_names(f) =~= prev.fresh_names(p).insert(name)) by {
            assert forall|n: Seq<char>| self.fresh_names(f).contains(n) <==> prev.fresh_names(p).insert(name).contains(n) by {
                if self.fresh_names(f).contains(n) {
                    let i = choose|i: int| 0 <= i < f.len() && n == #[trigger] self.compilation.module_graph.modules@[f[i] as int].chunk_name@;
                    if i < p.len() {
                        assert(f[i] == p[i]);
                        assert(n == prev.compilation.module_graph.modules@[p[i] as int].chunk_name@);
                    }
                }
                if prev.fresh_names(p).contains(n) {
                    let i = choose|i: int| 0 <= i < p.len() && n == #[trigger] prev.compilation.module_graph.modules@[p[i] as int].chunk_name@;
                    assert(f[i] == p[i]);
                    assert(n == self.compilation.module_graph.modules@[f[i] as int].chunk_name@);
                }
                if n == name {
                    assert(f[p.len() as int] == x);
                    assert(n == self.compilation.module_graph.modules@[f[p.len() as int] as int].chunk_name@);
                }
            }
        }
        assert forall|c: int| old.num_chunks() <= c < self.num_chunks() implies {
            let nc = #[trigger] self.compilation.chunk_by_ukey@[c];
            &&& nc.ukey == c
            &&& nc.name is Some
            &&& self.compilation.named_chunks@.contains_key(nc.name.unwrap()@)
            &&& self.compilation.named_chunks@[nc.name.unwrap()@] == c
            &&& nc.runtime@.len() == 0
        } by {
            if c < prev.num_chunks() {
                let pc = prev.compilation.chunk_by_ukey@[c];
                assert(prev.compilation.named_chunks@.contains_key(pc.name.unwrap()@));
            }
        }
        let cg = self.compilation.chunk_graph;
        let pcg = prev.compilation.chunk_graph;
        let ocg = old.compilation.chunk_graph;
        assert forall|c: ChunkUkey| #[trigger] cg.has_chunk(c) <==> ocg.has_chunk(c) || (old.num_chunks() <= c < self.num_chunks()) by {
            assert(pcg.has_chunk(c) <==> ocg.has_chunk(c) || (old.num_chunks() <= c < prev.num_chunks()));
            if c == chunk {
                if !pcg.has_chunk(chunk) {
                    assert(cg.has_chunk(chunk));
                    if !prev.compilation.named_chunks@.contains_key(name) {
                    } else {
                        assert(chunk < prev.num_chunks());
                        assert(prev.compilation.chunk_graph.all_chunks_added(prev.num_chunks()));
                        assert(pcg.has_chunk(chunk));
                    }
                }
            }
            if !pcg.has_chunk(c) && old.num_chunks() <= c < self.num_chunks() {
                if c < prev.num_chunks() {
                    assert(prev.compilation.chunk_graph.all_chunks_added(prev.num_chunks()));
                    assert(pcg.has_chunk(c));
                } else {
                    assert(c == prev.num_chunks());
                    assert(!prev.compilation.named_chunks@.contains_key(name));
                    assert(chunk == c);
                }
            }
        }
        assert forall|c: ChunkUkey| #[trigger] ocg.has_chunk(c) implies cg.chunk_modules(c) == ocg.chunk_modules(c)
            && cg.entry_modules(c) == ocg.entry_modules(c) by {
            assert(pcg.has_chunk(c));
        }
        assert forall|c: ChunkUkey| cg.has_chunk(c) && !ocg.has_chunk(c) implies #[trigger] cg.chunk_modules(c) == Set::<ModuleIdentifier>::empty()
            && cg.entry_modules(c) == Map::<ModuleIdentifier, ChunkGroupUkey>::empty() by {
            if pcg.has_chunk(c) {
                assert(pcg.chunk_modules(c) == Set::<ModuleIdentifier>::empty());
            }
        }
        assert(self.names_grown(old, self.fresh_names(f)));
        assert forall|c: int| 0 <= c < old.num_chunks() implies {
            let nc = #[trigger] self.compilation.chunk_by_ukey@[c];
            let oc = old.compilation.chunk_by_ukey@[c];
            &&& nc.ukey == oc.ukey
            &&& nc.name == oc.name
            &&& nc.id == oc.id
            &&& nc.runtime == oc.runtime
        } by {
            assert(prev.compilation.chunk_by_ukey@[c].ukey == old.compilation.chunk_by_ukey@[c].ukey);
        }
        assert(cg.chunk_graph_module_by_module_identifier == ocg.chunk_graph_module_by_module_identifier);
        assert(self.chunks_split(old, f));
    }

    /// Splitting one more chunk off, at `x`, extends what was split off at `p` to `p.push(x)`.
    pub proof fn lemma_split_off_step(
        &self,
        prev: &CodeSplitter,
        old: &CodeSplitter,
        item: QueueItem,
        p: Seq<ModuleIdentifier>,
        x: ModuleIdentifier,
        chunk: ChunkUkey,
        new_group: ChunkGroupUkey,
    )
        requires
            prev.split_off(old, item, p),
            !old.split_point_modules@.contains(x),
            !p.contains(x),
            new_group == prev.compilation.num_groups(),
            self.compilation.module_graph == prev.compilation.module_graph,
            self.queue_delayed@ == prev.queue_delayed@.push(
                QueueItem {
                    action: QueueAction::AddAndEnter,
                    chunk,
                    chunk_group: new_group,
                    module_identifier: x,
                },
            ),
            self.split_point_modules@ == prev.split_point_modules@.insert(x),
            self.split_from@ == prev.split_from@.insert(x, item.chunk),
            self.edges() == prev.edges().insert((chunk, item.chunk)),
            self.compilation.chunk_graph.split_points() == prev.compilation.chunk_graph.split_points().insert(x, chunk),
            forall|n: Seq<char>| #[trigger]
                prev.compilation.named_chunks@.contains_key(n) ==> self.compilation.named_chunks@.contains_key(n)
                    && self.compilation.named_chunks@[n] == prev.compilation.named_chunks@[n],
            self.compilation.named_chunks@.contains_key(self.compilation.module_graph.modules@[x as int].chunk_name@),
            self.split_chunk(x) == chunk,
            self.compilation.num_groups() == prev.compilation.num_groups() + 1,
            item.chunk_group < prev.compilation.num_groups(),
            ({
                let ng = self.compilation.chunk_group_by_ukey@[new_group as int];
                &&& ng.ukey == new_group
                &&& ng.kind == ChunkGroupKind::Normal
                &&& ng.parents@ == set![item.chunk_group]
                &&& ng.children@ == Set::<ChunkGroupUkey>::empty()
                &&& ng.chunks@ == seq![chunk]
                &&& ng.module_pre_order_indices@ == Map::<ModuleIdentifier, usize>::empty()
                &&& ng.module_post_order_indices@ == Map::<ModuleIdentifier, usize>::empty()
                &&& ng.next_pre_order_index == 0
                &&& ng.next_post_order_index == 0
                &&& ng.runtime is None
                &&& ng.entry_point_chunk is None
                &&& ng.runtime_chunk is None
                &&& ng.name is None
            }),
            self.group(item.chunk_group).children@ == prev.group(item.chunk_group).children@.insert(new_group),
            self.group(item.chunk_group).same_except_chunks_children(prev.group(item.chunk_group)),
            self.group(item.chunk_group).chunks == prev.group(item.chunk_group).chunks,
            forall|h: int|
                0 <= h < prev.compilation.num_groups() && h != item.chunk_group ==> #[trigger] self.compilation.chunk_group_by_ukey@[h]
                    == prev.compilation.chunk_group_by_ukey@[h],
        ensures
            self.split_off(old, item, p.push(x)),
    {
        let n0 = old.compilation.num_groups();
        let g = item.chunk_group;
        let f = p.push(x);
        assert forall|i: int| 0 <= i < p.len() implies #[trigger] self.split_chunk(p[i]) == prev.split_chunk(p[i]) by {
            assert(prev.compilation.named_chunks@.contains_key(prev.compilation.module_graph.modules@[p[i] as int].chunk_name@));
        }
        assert(self.split_items(old, f) =~= prev.split_items(old, p).push(
            QueueItem { action: QueueAction::AddAndEnter, chunk, chunk_group: new_group, module_identifier: x },
        )) by {
            assert forall|i: int| 0 <= i < p.len() implies #[trigger] self.split_items(old, f)[i] == prev.split_items(old, p)[i] by {
                assert(f[i] == p[i]);
                assert(self.split_chunk(p[i]) == prev.split_chunk(p[i]));
            }
            assert(f[p.len() as int] == x);
        }
        assert(self.queue_delayed@ =~= old.queue_delayed@ + self.split_items(old, f));
        assert(f.to_set() =~= p.to_set().insert(x)) by {
            assert forall|e: ModuleIdentifier| f.contains(e) <==> p.contains(e) || e == x by {
                if f.contains(e) {
                    let i = choose|i: int| 0 <= i < f.len() && f[i] == e;
                    if i < p.len() {
                        assert(p[i] == e);
                    }
                }
                if p.contains(e) {
                    let i = choose|i: int| 0 <= i < p.len() && p[i] == e;
                    assert(f[i] == e);
                }
                if e == x {
                    assert(f[p.len() as int] == x);
                }
            }
        }
        assert(self.split_point_modules@ =~= old.split_point_modules@.union(f.to_set()));
        assert(self.split_from@ =~= old.split_from@.union_prefer_right(
            Map::new(|d: ModuleIdentifier| f.contains(d), |d: ModuleIdentifier| item.chunk),
        ));
        assert(self.split_edges(f, item.chunk) =~= prev.split_edges(p, item.chunk).insert((chunk, item.chunk))) by {
            assert forall|e: (usize, usize)| #[trigger] self.split_edges(f, item.chunk).contains(e)
                implies prev.split_edges(p, item.chunk).insert((chunk, item.chunk)).contains(e) by {
                let i = choose|i: int| 0 <= i < f.len() && e == (#[trigger] self.split_chunk(f[i]), item.chunk);
                if i < p.len() {
                    assert(f[i] == p[i]);
                    assert(self.split_chunk(p[i]) == prev.split_chunk(p[i]));
                    assert(e == (prev.split_chunk(p[i]), item.chunk));
                }
            }
            assert forall|e: (usize, usize)| prev.split_edges(p, item.chunk).insert((chunk, item.chunk)).contains(e)
                implies #[trigger] self.split_edges(f, item.chunk).contains(e) by {
                if e == (chunk, item.chunk) {
                    assert(f[p.len() as int] == x);
                    assert(e == (self.split_chunk(f[p.len() as int]), item.chunk));
                } else {
                    assert(prev.split_edges(p, item.chunk).contains(e));
                    let i = choose|i: int| 0 <= i < p.len() && e == (#[trigger] prev.split_chunk(p[i]), item.chunk);
                    assert(f[i] == p[i]);
                    assert(self.split_chunk(p[i]) == prev.split_chunk(p[i]));
                    assert(e == (self.split_chunk(f[i]), item.chunk));
                }
            }
        }
        assert(self.edges() =~= old.edges().union(self.split_edges(f, item.chunk)));
        let sp = self.compilation.chunk_graph.split_points();
        let psp = prev.compilation.chunk_graph.split_points();
        let osp = old.compilation.chunk_graph.split_points();
        assert forall|d: ModuleIdentifier| #[trigger] sp.contains_key(d) <==> osp.contains_key(d) || f.contains(d) by {
            assert(psp.contains_key(d) <==> osp.contains_key(d) || p.contains(d));
            assert(f.to_set().contains(d) == (p.to_set().contains(d) || d == x));
        }
        assert forall|i: int| 0 <= i < f.len() implies sp[#[trigger] f[i]] == self.split_chunk(f[i]) by {
            if i < p.len() {
                assert(f[i] == p[i]);
                assert(psp[p[i]] == prev.split_chunk(p[i]));
                assert(self.split_chunk(p[i]) == prev.split_chunk(p[i]));
            }
        }
        assert forall|d: ModuleIdentifier| #[trigger] osp.contains_key(d) && !f.contains(d) implies sp[d] == osp[d] by {
            assert(f.to_set().contains(d) == (p.to_set().contains(d) || d == x));
        }
        assert forall|i: int| 0 <= i < f.len() implies self.compilation.named_chunks@.contains_key(
            self.compilation.module_graph.modules@[#[trigger] f[i] as int].chunk_name@) by {
            if i < p.len() {
                assert(f[i] == p[i]);
                assert(prev.compilation.named_chunks@.contains_key(prev.compilation.module_graph.modules@[p[i] as int].chunk_name@));
            }
        }
        assert forall|i: int| 0 <= i < f.len() implies {
            let ng = #[trigger] self.compilation.chunk_group_by_ukey@[n0 + i];
            &&& ng.ukey == n0 + i
            &&& ng.kind == ChunkGroupKind::Normal
            &&& ng.parents@ == set![g]
            &&& ng.children@ == Set::<ChunkGroupUkey>::empty()
            &&& ng.chunks@ == seq![self.split_chunk(f[i])]
            &&& ng.module_pre_order_indices@ == Map::<ModuleIdentifier, usize>::empty()
            &&& ng.module_post_order_indices@ == Map::<ModuleIdentifier, usize>::empty()
            &&& ng.next_pre_order_index == 0
            &&& ng.next_post_order_index == 0
            &&& ng.runtime is None
            &&& ng.entry_point_chunk is None
            &&& ng.runtime_chunk is None
            &&& ng.name is None
        } by {
            if i < p.len() {
                assert(f[i] == p[i]);
                assert(self.split_chunk(p[i]) == prev.split_chunk(p[i]));
                assert(prev.compilation.chunk_group_by_ukey@[n0 + i] == self.compilation.chunk_group_by_ukey@[n0 + i]);
            } else {
                assert(f[i] == x);
            }
        }
        if p.len() == 0 {
            assert(prev.compilation.chunk_group_by_ukey@[g as int] == old.compilation.chunk_group_by_ukey@[g as int]);
        }
        assert(self.group(g).children@ =~= old.group(g).children@.union(Self::group_range(n0, f.len())));
        assert forall|h: int|
            0 <= h < n0 && (h != g || f.len() == 0) implies #[trigger] self.compilation.chunk_group_by_ukey@[h]
                == old.compilation.chunk_group_by_ukey@[h] by {
            assert(prev.compilation.chunk_group_by_ukey@[h] == old.compilation.chunk_group_by_ukey@[h]);
        }
    }


    /// Processing the module of `item` needs the group of `item`: the module has static
    /// dependencies to queue in it, or a dynamic one that is no split point yet.
    pub open spec fn needs_group(&self, item: QueueItem) -> bool {
        let m = item.module_identifier;
        ||| self.module_deps(m).len() > 0
        ||| exists|j: int|
            0 <= j < self.module_dyn_deps(m).len() && !self.split_point_modules@.contains(
                #[trigger] self.module_dyn_deps(m)[j],
            )
    }

    /// `self` is `old` after processing the module of `item`, with `q` the queue left to work
    /// off: the static dependencies are queued for the same chunk, the first on top; a chunk
    /// is split off at each dynamic dependency that is no split point yet, the last first.
    pub open spec fn processed(&self, old: &CodeSplitter, item: QueueItem, q: Seq<QueueItem>) -> bool {
        let m = item.module_identifier;
        let fresh = fresh_splits(old.module_dyn_deps(m), old.split_point_modules@, old.module_dyn_deps(m).len());
        &&& self.queue@ == q + static_items(item, old.module_deps(m))
        &&& self.split_off(old, item, fresh)
        &&& self.chunks_split(old, fresh)
        &&& self.compilation.module_graph == old.compilation.module_graph
        &&& self.compilation.entries == old.compilation.entries
        &&& self.next_free_module_pre_order_index == old.next_free_module_pre_order_index
        &&& self.next_free_module_post_order_index == old.next_free_module_post_order_index
    }


    /// `self` is `old` after entering the module of `item` and processing it, with `q` the
    /// queue left to work off.
    pub open spec fn enter_effect(&self, old: &CodeSplitter, item: QueueItem, q: Seq<QueueItem>) -> bool {
        exists|mid: CodeSplitter| #[trigger] mid.entered(old, item, q) && self.processed(&mid, item, mid.queue@)
    }

    /// All but the queue and the chunk graph are as in `old`.
    pub open spec fn same_but_chunk_graph(&self, old: &CodeSplitter) -> bool {
        &&& self.compilation.module_graph == old.compilation.module_graph
        &&& self.compilation.entries == old.compilation.entries
        &&& self.compilation.chunk_by_ukey == old.compilation.chunk_by_ukey
        &&& self.compilation.chunk_group_by_ukey == old.compilation.chunk_group_by_ukey
        &&& self.compilation.named_chunks == old.compilation.named_chunks
        &&& self.compilation.named_chunk_groups == old.compilation.named_chunk_groups
        &&& self.compilation.entrypoints == old.compilation.entrypoints
        &&& self.next_free_module_pre_order_index == old.next_free_module_pre_order_index
        &&& self.next_free_module_post_order_index == old.next_free_module_post_order_index
        &&& self.queue_delayed == old.queue_delayed
        &&& self.split_point_modules == old.split_point_modules
        &&& self.split_from == old.split_from
        &&& self.chunk_relation_graph == old.chunk_relation_graph
    }

    /// All but the queue is as in `old`, and the queue is `q`.
    pub open spec fn unchanged_but_queue(&self, old: &CodeSplitter, q: Seq<QueueItem>) -> bool {
        &&& self.same_but_chunk_graph(old)
        &&& self.compilation.chunk_graph == old.compilation.chunk_graph
        &&& self.queue@ == q
    }

    /// `self` is `old` with the module of `item` put into the chunk of `item`, and nothing
    /// else changed but the queue.
    pub open spec fn connected(&self, old: &CodeSplitter, item: QueueItem) -> bool {
        let c = item.chunk;
        let m = item.module_identifier;
        let cg = self.compilation.chunk_graph;
        let ocg = old.compilation.chunk_graph;
        &&& self.same_but_chunk_graph(old)
        &&& cg.chunk_graph_chunk_by_chunk_ukey@.dom() == ocg.chunk_graph_chunk_by_chunk_ukey@.dom()
        &&& cg.chunk_graph_module_by_module_identifier@.dom() == ocg.chunk_graph_module_by_module_identifier@.dom().insert(m)
        &&& forall|x: ChunkUkey| #[trigger]
            cg.chunk_modules(x) == if x == c {
                ocg.chunk_modules(x).insert(m)
            } else {
                ocg.chunk_modules(x)
            }
        &&& forall|x: ChunkUkey| #[trigger] cg.entry_modules(x) == ocg.entry_modules(x)
        &&& cg.module_chunks(m) == (if ocg.has_module(m) {
            ocg.module_chunks(m)
        } else {
            Set::<ChunkUkey>::empty()
        }).insert(c)
        &&& forall|y: ModuleIdentifier| #[trigger] ocg.has_module(y) && y != m ==> cg.module_chunks(y) == ocg.module_chunks(y)
        &&& forall|y: ModuleIdentifier| #[trigger] ocg.has_module(y) ==> cg.module_entry_chunks(y) == ocg.module_entry_chunks(y)
        &&& cg.split_points() == ocg.split_points()
    }

    /// `self` is `old` after the item `item` that adds its module to its chunk, with `q` the
    /// queue left to work off: nothing changes where the chunk has the module already;
    /// otherwise the module is put into the chunk, entered and processed.
    pub open spec fn add_effect(&self, old: &CodeSplitter, item: QueueItem, q: Seq<QueueItem>) -> bool {
        if old.compilation.chunk_graph.chunk_modules(item.chunk).contains(item.module_identifier) {
            self.unchanged_but_queue(old, q)
        } else {
            exists|mid: CodeSplitter|
                #[trigger] mid.connected(old, item) && mid.queue@ == q && self.enter_effect(&mid, item, q)
        }
    }

    /// `self` is `old` after the step for `item`, with `q` the queue left to work off.
    pub open spec fn item_effect(&self, old: &CodeSplitter, item: QueueItem, q: Seq<QueueItem>) -> bool {
        match item.action {
            QueueAction::AddAndEnter => self.add_effect(old, item, q),
            QueueAction::_Enter => self.enter_effect(old, item, q),
            QueueAction::_ProcessModule => self.processed(old, item, q),
            QueueAction::Leave => self.leave_effect(old, item, q),
        }
    }


    /// The delayed queue of `self` starts with that of `old`.
    pub open spec fn delayed_grew(&self, old: &CodeSplitter) -> bool {
        &&& old.queue_delayed@.len() <= self.queue_delayed@.len()
        &&& forall|i: int|
            0 <= i < old.queue_delayed@.len() ==> #[trigger] self.queue_delayed@[i] == old.queue_delayed@[i]
    }

    /// `a` and `b` differ at most in their queues.
    pub open spec fn same_but_queue(a: &CodeSplitter, b: &CodeSplitter) -> bool {
        &&& a.compilation == b.compilation
        &&& a.next_free_module_pre_order_index == b.next_free_module_pre_order_index
        &&& a.next_free_module_post_order_index == b.next_free_module_post_order_index
        &&& a.queue_delayed == b.queue_delayed
        &&& a.split_point_modules == b.split_point_modules
        &&& a.split_from == b.split_from
        &&& a.chunk_relation_graph == b.chunk_relation_graph
    }

    /// Step `i` of the run `trace` works off the item on top of the queue.
    pub open spec fn step_at(trace: Seq<CodeSplitter>, i: int) -> bool {
        let s = trace[i];
        &&& s.queue@.len() > 0
        &&& trace[i + 1].item_effect(&s, s.queue@.last(), s.queue@.drop_last())
    }

    /// `trace` runs from its first state to its last, each step working off the item on top
    /// of the queue.
    pub open spec fn is_run(trace: Seq<CodeSplitter>) -> bool {
        &&& trace.len() >= 1
        &&& forall|i: int| 0 <= i < trace.len() - 1 ==> #[trigger] Self::step_at(trace, i)
    }

    /// What a step does does not depend on the queue it found, only on the item and on the
    /// queue left to work off.
    pub proof fn lemma_effect_ignores_queue(&self, a: &CodeSplitter, b: &CodeSplitter, item: QueueItem, q: Seq<QueueItem>)
        requires
            Self::same_but_queue(a, b),
            self.item_effect(a, item, q),
        ensures
            self.item_effect(b, item, q),
    {
        match item.action {
            QueueAction::AddAndEnter => {
                if !a.compilation.chunk_graph.chunk_modules(item.chunk).contains(item.module_identifier) {
                    let mid = choose|mid: CodeSplitter|
                        #[trigger] mid.connected(a, item) && mid.queue@ == q && self.enter_effect(&mid, item, q);
                    assert(mid.connected(b, item));
                }
            },
            QueueAction::_Enter => {
                let mid = choose|mid: CodeSplitter| #[trigger] mid.entered(a, item, q) && self.processed(&mid, item, mid.queue@);
                assert(mid.entered(b, item, q));
            },
            QueueAction::_ProcessModule => {
                assert forall|c: ChunkUkey| b.num_chunks() <= c < self.num_chunks() implies #[trigger] self.named_new(b, c) by {
                    assert(self.named_new(a, c));
                }
                assert(self.split_items(a, fresh_splits(a.module_dyn_deps(item.module_identifier), a.split_point_modules@, a.module_dyn_deps(item.module_identifier).len()))
                    == self.split_items(b, fresh_splits(b.module_dyn_deps(item.module_identifier), b.split_point_modules@, b.module_dyn_deps(item.module_identifier).len())));
            },
            QueueAction::Leave => {},
        }
    }

    /// `self` is `old` after leaving the module of `item`, with `q` the queue left to work off.
    pub open spec fn leave_effect(&self, old: &CodeSplitter, item: QueueItem, q: Seq<QueueItem>) -> bool {
        &&& self.post_left(old, item)
        &&& self.queue@ == q
    }

    /// `self` is `old` after entering the module of `item`, before processing it, with `q`
    /// the queue left to work off: leaving the module is queued.
    pub open spec fn entered(&self, old: &CodeSplitter, item: QueueItem, q: Seq<QueueItem>) -> bool {
        &&& self.pre_entered(old, item)
        &&& self.queue@ == q.push(leave_item(item))
    }
}

} // verus!
