use crate::chunk_relation::new_relation_graph;
use crate::chunk_relation::relation_add_edge;
use crate::chunk_relation::relation_contains_edge;
use crate::chunk_relation::relation_edges;
use crate::chunk_relation::relation_nodes;
use crate::compilation::Chunk;
use crate::compilation::ChunkGraph;
use crate::compilation::ChunkGroup;
use crate::compilation::ChunkGroupKind;
use crate::compilation::ChunkGroupUkey;
use crate::compilation::ChunkUkey;
use crate::compilation::Compilation;
use crate::compilation::ModuleIdentifier;
use crate::reach::dep_graph;
use crate::reach::is_root;
use crate::reach::lemma_reachable_mono;
use crate::reach::lemma_reachable_root;
use crate::reach::lemma_reachable_step;
use crate::reach::lemma_reachable_within;
use crate::reach::reachable;
use crate::set_facts::lemma_bounded_set_len;
use crate::set_facts::lemma_bounded_set_len_missing;
use crate::split_steps::entry_mods;
use crate::split_steps::dyn_imported;
use crate::split_steps::dyn_names_fresh;
use crate::split_steps::entry_names;
use crate::split_steps::fresh_splits;
use crate::split_steps::input_upto;
use crate::split_steps::lists;
use crate::split_steps::name_of;
use crate::split_steps::names_distinct;
use crate::split_steps::point_grouped;
use crate::split_steps::entry_names_new;
use crate::split_steps::prepared_names;
use crate::split_steps::rev;
use crate::split_steps::group_linked;
use crate::split_steps::groups_linked;
use crate::split_steps::leave_item;
use crate::split_steps::link_edges;
use crate::split_steps::numbered;
use crate::split_steps::post_indexed;
use crate::split_steps::pre_indexed;
use crate::split_steps::same_group_but_orders;
use crate::split_steps::same_module_but_orders;
use crate::split_steps::static_items;
use petgraph::graphmap::DiGraphMap;
use std::collections::HashSet;
use vstd::prelude::*;

verus! {

broadcast use vstd::std_specs::hash::group_hash_axioms;

/// Why code splitting gave up.
#[derive(Clone, Copy, Debug, PartialEq, Eq)]
pub enum SplitError {
    /// A dependency of an entry did not resolve to a module.
    NoModuleFound,
}

/// Splits the modules of the compilation into chunks.
pub fn code_splitting(compilation: &mut Compilation) -> (result: Result<(), SplitError>)
    requires
        old(compilation).wf(),
    ensures
        final(compilation).wf(),
        result is Ok <==> CodeSplitter::entries_resolve(old(compilation)),
        old(compilation).is_unsplit() && result is Ok ==> exists|
            edges: Set<(usize, usize)>,
            points: Set<ModuleIdentifier>,
            from: Map<ModuleIdentifier, ChunkUkey>,
        | split_outcome(final(compilation), edges, points, from),
        old(compilation).is_unsplit() && result is Ok ==> entries_rooted(final(compilation)),
        result is Err ==> final(compilation).module_graph == old(compilation).module_graph,
        result is Ok ==> exists|s: CodeSplitter, f: CodeSplitter, trace: Seq<CodeSplitter>|
            {
                &&& s.compilation == *old(compilation)
                &&& s.queue@.len() == 0
                &&& s.queue_delayed@.len() == 0
                &&& s.split_point_modules@ == Set::<ModuleIdentifier>::empty()
                &&& s.edges() == Set::<(usize, usize)>::empty()
                &&& s.next_free_module_pre_order_index == 0
                &&& s.next_free_module_post_order_index == 0
                &&& #[trigger] CodeSplitter::split_run(&s, &f, trace)
                &&& *final(compilation) == f.compilation
            },
{
    let mut taken = Compilation::empty();
    std::mem::swap(compilation, &mut taken);
    let mut splitter = CodeSplitter::new(taken);
    let ghost s0 = splitter;
    let ghost fresh = splitter.is_fresh();
    let result = splitter.split();
    let ghost edges = splitter.edges();
    let ghost points = splitter.split_point_modules@;
    let ghost from = splitter.split_from@;
    *compilation = splitter.compilation;
    proof {
        if fresh && result is Ok {
            assert(split_outcome(compilation, edges, points, from));
        }
        if result is Ok {
            let trace = choose|trace: Seq<CodeSplitter>| #[trigger] CodeSplitter::split_run(&s0, &splitter, trace);
            assert(CodeSplitter::split_run(&s0, &splitter, trace));
        }
    }
    result
}

/// Module `m` is reached along static imports from a root of chunk `c` in compilation `c`.
pub open spec fn reaches(comp: &Compilation, c: ChunkUkey, m: ModuleIdentifier) -> bool {
    reachable(dep_graph(&comp.module_graph), comp.chunk_graph, c, m)
}

/// What splitting a fresh compilation leaves behind, given the relation `edges` between the
/// chunks (from the chunk split off at a dynamic import to the chunk that imports) and the
/// set `points` of modules that were split off:
/// - a chunk holds exactly the modules its roots reach that no chunk it relates to reaches;
/// - every dynamic import of a reached module is a split point, recorded with the chunk that
///   starts at it, which relates to a chunk that reaches a module importing it;
/// - every relation comes from such an import;
/// - every other module recorded as starting a chunk is an entry module of it;
/// - every reached module has distinct pre- and post-order indices;
/// - every chunk runs in the runtimes of the entrypoints that hold it.
/// A chunk holds exactly the modules it reaches that no chunk it relates to in `edges` reaches.
pub open spec fn chunk_contents_law(comp: &Compilation, edges: Set<(usize, usize)>) -> bool {
    let n = comp.num_chunks();
    forall|c: ChunkUkey, m: ModuleIdentifier|
        c < n ==> (#[trigger] comp.chunk_graph.chunk_modules(c).contains(m) <==> reaches(comp, c, m) && !exists|o: ChunkUkey|
            o < n && #[trigger] edges.contains((c, o)) && reaches(comp, o, m))
}

pub open spec fn split_outcome_core(
    comp: &Compilation,
    edges: Set<(usize, usize)>,
    points: Set<ModuleIdentifier>,
) -> bool {
    let cg = comp.chunk_graph;
    let sp = cg.split_points();
    let n = comp.num_chunks();
    let modules = comp.module_graph.modules@;
    &&& chunk_contents_law(comp, edges)
    &&& forall|c: ChunkUkey, x: ModuleIdentifier, d: ModuleIdentifier|
        c < n && #[trigger] reaches(comp, c, x) && #[trigger] modules[x as int].dynamic_dependencies@.contains(d)
            ==> points.contains(d)
    &&& forall|d: ModuleIdentifier| #[trigger]
        points.contains(d) ==> {
            &&& sp.contains_key(d)
            &&& sp[d] < n
            &&& exists|b: ChunkUkey, y: ModuleIdentifier|
                #![trigger edges.contains((sp[d], b)), reaches(comp, b, y)]
                edges.contains((sp[d], b)) && b < n && reaches(comp, b, y)
                    && modules[y as int].dynamic_dependencies@.contains(d)
        }
    &&& forall|a: ChunkUkey, b: ChunkUkey| #[trigger]
        edges.contains((a, b)) ==> {
            &&& b < n
            &&& exists|d: ModuleIdentifier, x: ModuleIdentifier|
                #![trigger points.contains(d), reaches(comp, b, x)]
                points.contains(d) && sp[d] == a && reaches(comp, b, x)
                    && modules[x as int].dynamic_dependencies@.contains(d)
        }
    &&& forall|m: ModuleIdentifier| #[trigger]
        sp.contains_key(m) && !points.contains(m) ==> cg.has_chunk(sp[m]) && cg.entry_modules(
            sp[m],
        ).contains_key(m)
    &&& forall|c: ChunkUkey, m: ModuleIdentifier|
        c < n && #[trigger] reaches(comp, c, m) ==> modules[m as int].pre_order_index is Some
            && modules[m as int].post_order_index is Some
    &&& forall|m1: ModuleIdentifier, m2: ModuleIdentifier|
        m1 < modules.len() && m2 < modules.len() && m1 != m2
            && (#[trigger] modules[m1 as int]).pre_order_index is Some && (#[trigger] modules[m2 as int]).pre_order_index is Some
            ==> modules[m1 as int].pre_order_index != modules[m2 as int].pre_order_index
    &&& forall|m1: ModuleIdentifier, m2: ModuleIdentifier|
        m1 < modules.len() && m2 < modules.len() && m1 != m2
            && (#[trigger] modules[m1 as int]).post_order_index is Some && (#[trigger] modules[m2 as int]).post_order_index is Some
            ==> modules[m1 as int].post_order_index != modules[m2 as int].post_order_index
    &&& forall|c: int|
        0 <= c < n ==> (#[trigger] comp.chunk_by_ukey@[c]).runtime_names() == CodeSplitter::entry_runtimes(
            comp,
            c as usize,
        )
}

/// What splitting a fresh compilation leaves behind (`split_outcome_core`), where moreover
/// `from` gives for each split point the chunk it was split off from: a chunk that reaches a
/// module importing it; the relations are exactly those from the chunk of each split point
/// to the chunk it was split off from, so that a chunk that is no split point's chunk holds
/// exactly what it reaches; each split point's chunk is the one named by its chunk name and
/// the only chunk of a group that no entry started; and every group that no entry started
/// is the child of exactly one group, which lists it as a child. Where the modules imported
/// dynamically have chunk names of their own, `split_names_outcome` holds too. Exactly the
/// modules that some chunk reaches
/// have a pre-order index, and exactly those have a post-order index; both are numbered from
/// zero without gaps.
pub open spec fn split_outcome(
    comp: &Compilation,
    edges: Set<(usize, usize)>,
    points: Set<ModuleIdentifier>,
    from: Map<ModuleIdentifier, ChunkUkey>,
) -> bool {
    let sp = comp.chunk_graph.split_points();
    &&& split_outcome_core(comp, edges, points)
    &&& forall|d: ModuleIdentifier| #[trigger]
        points.contains(d) ==> {
            &&& from.contains_key(d)
            &&& from[d] < comp.num_chunks()
            &&& exists|x: ModuleIdentifier|
                #![trigger reaches(comp, from[d], x)]
                reaches(comp, from[d], x) && comp.module_graph.modules@[x as int].dynamic_dependencies@.contains(d)
        }
    &&& edges == link_edges(sp, from, points)
    &&& forall|d: ModuleIdentifier| #[trigger]
        points.contains(d) ==> comp.named_chunks@.contains_key(name_of(comp, d)) && sp[d] == comp.named_chunks@[name_of(comp, d)]
    &&& dyn_names_fresh(comp) ==> split_names_outcome(comp, points, from)
    &&& forall|m: ModuleIdentifier|
        m < comp.num_modules() ==> ((#[trigger] comp.module_graph.modules@[m as int]).pre_order_index is Some
            <==> exists|c: ChunkUkey| c < comp.num_chunks() && #[trigger] reaches(comp, c, m))
    &&& forall|m: ModuleIdentifier|
        m < comp.num_modules() ==> ((#[trigger] comp.module_graph.modules@[m as int]).post_order_index is Some
            <==> comp.module_graph.modules@[m as int].pre_order_index is Some)
    &&& forall|c: ChunkUkey, m: ModuleIdentifier|
        c < comp.num_chunks() && !(exists|d: ModuleIdentifier| #[trigger] points.contains(d) && sp[d] == c)
            ==> (#[trigger] comp.chunk_graph.chunk_modules(c).contains(m) <==> reaches(comp, c, m))
    &&& groups_linked(comp)
    &&& forall|d: ModuleIdentifier| #[trigger] points.contains(d) ==> point_grouped(comp, d)
    &&& forall|k: ChunkUkey| k < comp.num_chunks() ==> #[trigger] chunk_id_is_name(comp, k)
    &&& chunk_ids_distinct(comp)
    &&& forall|m: ModuleIdentifier|
        m < comp.num_modules() && (#[trigger] comp.module_graph.modules@[m as int]).pre_order_index is Some
            ==> comp.module_graph.modules@[m as int].pre_order_index.unwrap() < pre_indexed(comp).len()
    &&& forall|m: ModuleIdentifier|
        m < comp.num_modules() && (#[trigger] comp.module_graph.modules@[m as int]).post_order_index is Some
            ==> comp.module_graph.modules@[m as int].post_order_index.unwrap() < post_indexed(comp).len()
}

/// Chunk `k` of `comp` has a name, which names it, and its id is its name.
pub open spec fn chunk_id_is_name(comp: &Compilation, k: ChunkUkey) -> bool {
    let ch = comp.chunk_by_ukey@[k as int];
    &&& ch.name is Some
    &&& ch.id is Some
    &&& ch.id.unwrap()@ == ch.name.unwrap()@
    &&& comp.named_chunks@.contains_key(ch.name.unwrap()@)
    &&& comp.named_chunks@[ch.name.unwrap()@] == k
}

/// No two chunks of `comp` have the same id.
pub open spec fn chunk_ids_distinct(comp: &Compilation) -> bool {
    forall|k1: int, k2: int|
        0 <= k1 < comp.num_chunks() && 0 <= k2 < comp.num_chunks() && k1 != k2
            ==> #[trigger] comp.chunk_by_ukey@[k1].id != #[trigger] comp.chunk_by_ukey@[k2].id
}

/// Where every chunk's id is its name and its name names it, no two chunks share an id.
pub proof fn law_chunk_ids_distinct(comp: &Compilation)
    requires
        forall|k: ChunkUkey| k < comp.num_chunks() ==> #[trigger] chunk_id_is_name(comp, k),
    ensures
        chunk_ids_distinct(comp),
{
    assert forall|k1: int, k2: int|
        0 <= k1 < comp.num_chunks() && 0 <= k2 < comp.num_chunks() && k1 != k2
        implies #[trigger] comp.chunk_by_ukey@[k1].id != #[trigger] comp.chunk_by_ukey@[k2].id by {
        assert(chunk_id_is_name(comp, k1 as usize));
        assert(chunk_id_is_name(comp, k2 as usize));
    }
}

/// Some chunk name of `comp` names chunk `k`.
pub open spec fn has_chunk_name(comp: &Compilation, k: ChunkUkey) -> bool {
    exists|n: Seq<char>| #[trigger] comp.named_chunks@.contains_key(n) && comp.named_chunks@[n] == k
}

/// Chunk `k` of `comp` is named after an entry or a runtime, or is the chunk of a split point
/// of `points`.
pub open spec fn entry_or_point_chunk(comp: &Compilation, points: Set<ModuleIdentifier>, k: ChunkUkey) -> bool {
    ||| exists|name: Seq<char>|
        #[trigger] entry_names(comp).contains(name) && comp.named_chunks@.contains_key(name) && comp.named_chunks@[name] == k
    ||| exists|d: ModuleIdentifier| #[trigger] points.contains(d) && comp.chunk_graph.split_points()[d] == k
}

/// The chunk named after entry `e` of `comp`.
pub open spec fn entry_chunk_of(comp: &Compilation, e: int) -> ChunkUkey {
    comp.named_chunks@[comp.entries@[e].name@]
}

/// What splitting a fresh compilation leaves behind where every module imported dynamically
/// has a chunk name of its own: each split point has a new chunk of its own, made after the
/// chunk it was split off from; every chunk is named after an entry or a runtime, or is the
/// chunk of exactly one split point and then of no entry; an entry's chunk holds exactly what its roots reach along
/// static imports; a split point's chunk holds exactly what it reaches and the chunk it was
/// split off from does not; and every module that a chunk reaches stays in some chunk.
pub open spec fn split_names_outcome(
    comp: &Compilation,
    points: Set<ModuleIdentifier>,
    from: Map<ModuleIdentifier, ChunkUkey>,
) -> bool {
    let sp = comp.chunk_graph.split_points();
    let cg = comp.chunk_graph;
    let n = comp.num_chunks();
    &&& forall|d: ModuleIdentifier| #[trigger] points.contains(d) ==> from[d] < sp[d]
    &&& forall|d1: ModuleIdentifier, d2: ModuleIdentifier|
        #[trigger] points.contains(d1) && #[trigger] points.contains(d2) && d1 != d2 ==> sp[d1] != sp[d2]
    &&& forall|k: ChunkUkey| k < n ==> #[trigger] entry_or_point_chunk(comp, points, k)
    &&& forall|d: ModuleIdentifier, name: Seq<char>|
        #[trigger] points.contains(d) && #[trigger] entry_names(comp).contains(name) && comp.named_chunks@.contains_key(name)
            ==> comp.named_chunks@[name] != sp[d]
    &&& forall|e: int, m: ModuleIdentifier|
        0 <= e < comp.entries.len() && comp.named_chunks@.contains_key(comp.entries@[e].name@)
            ==> (#[trigger] cg.chunk_modules(entry_chunk_of(comp, e)).contains(m) <==> reaches(comp, entry_chunk_of(comp, e), m))
    &&& forall|d: ModuleIdentifier, m: ModuleIdentifier|
        points.contains(d) ==> (#[trigger] cg.chunk_modules(sp[d]).contains(m) <==> reaches(comp, sp[d], m)
            && !reaches(comp, from[d], m))
    &&& forall|c: ChunkUkey, m: ModuleIdentifier|
        c < n && #[trigger] reaches(comp, c, m) ==> exists|c2: ChunkUkey| c2 < n && #[trigger] cg.chunk_modules(c2).contains(m)
}

/// A module that a chunk reaches is held by that chunk or, following relations to chunks
/// made earlier, by one of those.
pub proof fn lemma_reached_kept(
    comp: &Compilation,
    edges: Set<(usize, usize)>,
    points: Set<ModuleIdentifier>,
    from: Map<ModuleIdentifier, ChunkUkey>,
    c: ChunkUkey,
    m: ModuleIdentifier,
)
    requires
        chunk_contents_law(comp, edges),
        edges == link_edges(comp.chunk_graph.split_points(), from, points),
        forall|d: ModuleIdentifier| #[trigger] points.contains(d) ==> from[d] < comp.chunk_graph.split_points()[d],
        c < comp.num_chunks(),
        reaches(comp, c, m),
    ensures
        exists|c2: ChunkUkey| c2 < comp.num_chunks() && #[trigger] comp.chunk_graph.chunk_modules(c2).contains(m),
    decreases c,
{
    let n = comp.num_chunks();
    if !comp.chunk_graph.chunk_modules(c).contains(m) {
        let o = choose|o: ChunkUkey| o < n && #[trigger] edges.contains((c, o)) && reaches(comp, o, m);
        let sp = comp.chunk_graph.split_points();
        assert(link_edges(sp, from, points).contains((c, o)));
        let d = choose|d: ModuleIdentifier| #[trigger] points.contains(d) && (c, o) == (sp[d], from[d]);
        assert(o < c);
        lemma_reached_kept(comp, edges, points, from, o, m);
    }
}


/// The facts about split points that the run leaves behind, over the compilation alone.
pub open spec fn points_named(
    comp: &Compilation,
    points: Set<ModuleIdentifier>,
    from: Map<ModuleIdentifier, ChunkUkey>,
) -> bool {
    let sp = comp.chunk_graph.split_points();
    let nc = comp.named_chunks@;
    &&& forall|d: ModuleIdentifier| #[trigger] points.contains(d) ==> {
        &&& from.contains_key(d)
        &&& from[d] < comp.num_chunks()
        &&& sp[d] < comp.num_chunks()
        &&& dyn_imported(comp, d)
        &&& nc.contains_key(name_of(comp, d))
        &&& sp[d] == nc[name_of(comp, d)]
        &&& (dyn_names_fresh(comp) ==> from[d] < sp[d])
    }
    &&& forall|n1: Seq<char>, n2: Seq<char>|
        #[trigger] nc.contains_key(n1) && #[trigger] nc.contains_key(n2) && n1 != n2 ==> nc[n1] != nc[n2]
    &&& forall|n: Seq<char>| #[trigger] nc.contains_key(n) ==> nc[n] < comp.num_chunks()
    &&& forall|k: ChunkUkey| k < comp.num_chunks() ==> #[trigger] has_chunk_name(comp, k)
    &&& forall|n: Seq<char>| #[trigger] nc.contains_key(n) ==> entry_names(comp).contains(n)
        || exists|d: ModuleIdentifier| #[trigger] points.contains(d) && name_of(comp, d) == n
}

/// Where the modules imported dynamically have chunk names of their own, split points have
/// chunks of their own.
pub proof fn lemma_points_apart(comp: &Compilation, points: Set<ModuleIdentifier>, from: Map<ModuleIdentifier, ChunkUkey>)
    requires
        points_named(comp, points, from),
        dyn_names_fresh(comp),
    ensures
        forall|d1: ModuleIdentifier, d2: ModuleIdentifier|
            #[trigger] points.contains(d1) && #[trigger] points.contains(d2) && d1 != d2
                ==> comp.chunk_graph.split_points()[d1] != comp.chunk_graph.split_points()[d2],
{
    let nc = comp.named_chunks@;
    assert forall|d1: ModuleIdentifier, d2: ModuleIdentifier|
        #[trigger] points.contains(d1) && #[trigger] points.contains(d2) && d1 != d2
        implies comp.chunk_graph.split_points()[d1] != comp.chunk_graph.split_points()[d2] by {
        assert(dyn_imported(comp, d1) && dyn_imported(comp, d2));
        assert(name_of(comp, d1) != name_of(comp, d2));
        assert(nc.contains_key(name_of(comp, d1)) && nc.contains_key(name_of(comp, d2)));
    }
}

/// Where the modules imported dynamically have chunk names of their own, no entry's chunk
/// is a split point's chunk.
pub proof fn lemma_entry_chunk_no_point(comp: &Compilation, points: Set<ModuleIdentifier>, from: Map<ModuleIdentifier, ChunkUkey>, e: int)
    requires
        points_named(comp, points, from),
        dyn_names_fresh(comp),
        0 <= e < comp.entries.len(),
        comp.named_chunks@.contains_key(comp.entries@[e].name@),
    ensures
        !(exists|d: ModuleIdentifier| #[trigger] points.contains(d) && comp.chunk_graph.split_points()[d] == entry_chunk_of(comp, e)),
        entry_chunk_of(comp, e) < comp.num_chunks(),
{
    let nc = comp.named_chunks@;
    let ne = comp.entries@[e].name@;
    let sp = comp.chunk_graph.split_points();
    assert(entry_names(comp).contains(ne)) by {
        assert(0 <= e < comp.entries.len() && comp.entries@[e].name@ == ne);
    }
    if exists|d: ModuleIdentifier| #[trigger] points.contains(d) && sp[d] == entry_chunk_of(comp, e) {
        let d = choose|d: ModuleIdentifier| #[trigger] points.contains(d) && sp[d] == entry_chunk_of(comp, e);
        assert(dyn_imported(comp, d));
        assert(!entry_names(comp).contains(name_of(comp, d)));
        assert(nc.contains_key(name_of(comp, d)));
    }
}

/// A split point's chunk that no other split point shares holds what it reaches and the
/// chunk it was split off from does not.
pub proof fn lemma_point_chunk_contents(
    comp: &Compilation,
    edges: Set<(usize, usize)>,
    points: Set<ModuleIdentifier>,
    from: Map<ModuleIdentifier, ChunkUkey>,
    d: ModuleIdentifier,
    m: ModuleIdentifier,
)
    requires
        chunk_contents_law(comp, edges),
        edges == link_edges(comp.chunk_graph.split_points(), from, points),
        points_named(comp, points, from),
        forall|d1: ModuleIdentifier, d2: ModuleIdentifier|
            #[trigger] points.contains(d1) && #[trigger] points.contains(d2) && d1 != d2
                ==> comp.chunk_graph.split_points()[d1] != comp.chunk_graph.split_points()[d2],
        points.contains(d),
    ensures
        comp.chunk_graph.chunk_modules(comp.chunk_graph.split_points()[d]).contains(m)
            <==> reaches(comp, comp.chunk_graph.split_points()[d], m) && !reaches(comp, from[d], m),
{
    let sp = comp.chunk_graph.split_points();
    let n = comp.num_chunks();
    assert(edges.contains((sp[d], from[d]))) by {
        assert(link_edges(sp, from, points).contains((sp[d], from[d])));
    }
    if exists|o: ChunkUkey| o < n && #[trigger] edges.contains((sp[d], o)) && reaches(comp, o, m) {
        let o = choose|o: ChunkUkey| o < n && #[trigger] edges.contains((sp[d], o)) && reaches(comp, o, m);
        assert(link_edges(sp, from, points).contains((sp[d], o)));
        let d2 = choose|d2: ModuleIdentifier| #[trigger] points.contains(d2) && (sp[d], o) == (sp[d2], from[d2]);
        if d2 != d {
            assert(sp[d] != sp[d2]);
        }
    }
}

/// Where every module imported dynamically has a chunk name of its own, the outcome says
/// more of the split chunks and of the entries' chunks (`split_names_outcome`).
pub proof fn lemma_names_outcome(
    comp: &Compilation,
    edges: Set<(usize, usize)>,
    points: Set<ModuleIdentifier>,
    from: Map<ModuleIdentifier, ChunkUkey>,
)
    requires
        chunk_contents_law(comp, edges),
        edges == link_edges(comp.chunk_graph.split_points(), from, points),
        points_named(comp, points, from),
        forall|c: ChunkUkey, m: ModuleIdentifier|
            c < comp.num_chunks() && !(exists|d: ModuleIdentifier| #[trigger] points.contains(d) && comp.chunk_graph.split_points()[d] == c)
                ==> (#[trigger] comp.chunk_graph.chunk_modules(c).contains(m) <==> reaches(comp, c, m)),
    ensures
        dyn_names_fresh(comp) ==> split_names_outcome(comp, points, from),
{
    let sp = comp.chunk_graph.split_points();
    if dyn_names_fresh(comp) {
        lemma_points_apart(comp, points, from);
        assert forall|e: int, m: ModuleIdentifier|
            0 <= e < comp.entries.len() && comp.named_chunks@.contains_key(comp.entries@[e].name@)
            implies (#[trigger] comp.chunk_graph.chunk_modules(entry_chunk_of(comp, e)).contains(m)
            <==> reaches(comp, entry_chunk_of(comp, e), m)) by {
            lemma_entry_chunk_no_point(comp, points, from, e);
        }
        assert forall|d: ModuleIdentifier, m: ModuleIdentifier|
            points.contains(d) implies (#[trigger] comp.chunk_graph.chunk_modules(sp[d]).contains(m) <==> reaches(comp, sp[d], m)
            && !reaches(comp, from[d], m)) by {
            lemma_point_chunk_contents(comp, edges, points, from, d, m);
        }
        assert forall|c: ChunkUkey, m: ModuleIdentifier|
            c < comp.num_chunks() && #[trigger] reaches(comp, c, m) implies exists|c2: ChunkUkey|
            c2 < comp.num_chunks() && #[trigger] comp.chunk_graph.chunk_modules(c2).contains(m) by {
            lemma_reached_kept(comp, edges, points, from, c, m);
        }
        let nc = comp.named_chunks@;
        assert forall|k: ChunkUkey| k < comp.num_chunks() implies #[trigger] entry_or_point_chunk(comp, points, k) by {
            assert(has_chunk_name(comp, k));
            let n = choose|n: Seq<char>| #[trigger] nc.contains_key(n) && nc[n] == k;
            if !entry_names(comp).contains(n) {
                let d = choose|d: ModuleIdentifier| #[trigger] points.contains(d) && name_of(comp, d) == n;
                assert(sp[d] == nc[name_of(comp, d)]);
            }
        }
        assert forall|d: ModuleIdentifier, name: Seq<char>|
            #[trigger] points.contains(d) && #[trigger] entry_names(comp).contains(name) && nc.contains_key(name)
            implies nc[name] != sp[d] by {
            assert(dyn_imported(comp, d));
            assert(!entry_names(comp).contains(name_of(comp, d)));
            assert(nc.contains_key(name_of(comp, d)));
        }
    }
}

/// The entries of `comp` are rooted in its chunks: each entry has its entrypoint, whose
/// entry chunk is the chunk named after the entry and has the modules the entry's
/// dependencies resolve to as entry modules; and every entry module of a chunk is such a
/// module of an entry the chunk is named after.
pub open spec fn entries_rooted(comp: &Compilation) -> bool {
    entries_rooted_upto(comp, comp.entries.len() as int, comp.entries.len() as int)
}

/// The first `n1` entries are rooted, and every entry module of a chunk is a module of one
/// of the first `n2` entries that the chunk is named after.
pub open spec fn entries_rooted_upto(comp: &Compilation, n1: int, n2: int) -> bool {
    let cg = comp.chunk_graph;
    &&& forall|e: int| 0 <= e < n1 ==> #[trigger] entry_rooted(comp, e)
    &&& forall|c: ChunkUkey, m: ModuleIdentifier|
        cg.has_chunk(c) && #[trigger] cg.entry_modules(c).contains_key(m) ==> exists|e: int, j: int|
            0 <= e < n2 && 0 <= j < comp.entries@[e].dependencies.len()
                && #[trigger] CodeSplitter::entry_module(comp, e, j) == Some(m)
                && comp.named_chunks@.contains_key(comp.entries@[e].name@)
                && comp.named_chunks@[comp.entries@[e].name@] == c
}

/// Entry `e` has its entrypoint, whose entry chunk is the chunk named after the entry and has
/// the modules the entry's dependencies resolve to as entry modules.
pub open spec fn entry_rooted(comp: &Compilation, e: int) -> bool {
    let name = comp.entries@[e].name@;
    let g = comp.entrypoints@[name];
    let c = comp.named_chunks@[name];
    &&& comp.entrypoints@.contains_key(name)
    &&& comp.named_chunks@.contains_key(name)
    &&& g < comp.num_groups()
    &&& comp.chunk_group_by_ukey@[g as int].kind == ChunkGroupKind::Entrypoint
    &&& comp.chunk_group_by_ukey@[g as int].entry_point_chunk == Some(c)
    &&& comp.chunk_graph.has_chunk(c)
    &&& forall|j: int|
        0 <= j < comp.entries@[e].dependencies.len() ==> #[trigger] entry_dependency_rooted(comp, e, j, c)
}

/// Dependency `j` of entry `e` resolves to an entry module of chunk `c`.
pub open spec fn entry_dependency_rooted(comp: &Compilation, e: int, j: int, c: ChunkUkey) -> bool {
    match CodeSplitter::entry_module(comp, e, j) {
        Some(m) => comp.chunk_graph.entry_modules(c).contains_key(m),
        None => false,
    }
}

/// `new` keeps what roots the entries of `old`: the entries and what their dependencies
/// resolve to, the entrypoints, the chunk names, the kind and entry chunk of every group,
/// and the entry modules of every chunk; chunks added since have no entry modules.
pub open spec fn entries_frame(old: &Compilation, new: &Compilation) -> bool {
    let cg = new.chunk_graph;
    let ocg = old.chunk_graph;
    &&& new.entries == old.entries
    &&& new.module_graph.dependency_modules == old.module_graph.dependency_modules
    &&& new.entrypoints == old.entrypoints
    &&& forall|n: Seq<char>| #[trigger] old.named_chunks@.contains_key(n) ==> new.named_chunks@.contains_key(n)
        && new.named_chunks@[n] == old.named_chunks@[n]
    &&& new.num_groups() >= old.num_groups()
    &&& forall|g: int| 0 <= g < old.num_groups() ==> (#[trigger] new.chunk_group_by_ukey@[g]).kind
        == old.chunk_group_by_ukey@[g].kind && new.chunk_group_by_ukey@[g].entry_point_chunk
        == old.chunk_group_by_ukey@[g].entry_point_chunk
    &&& forall|c: ChunkUkey| #[trigger] ocg.has_chunk(c) ==> cg.has_chunk(c) && cg.entry_modules(c)
        == ocg.entry_modules(c)
    &&& forall|c: ChunkUkey| #[trigger] cg.has_chunk(c) && !ocg.has_chunk(c) ==> cg.entry_modules(c)
        == Map::<ModuleIdentifier, ChunkGroupUkey>::empty()
}

/// A compilation keeps what roots its own entries.
pub proof fn lemma_entries_frame_refl(a: &Compilation)
    ensures
        entries_frame(a, a),
{
}

/// Keeping what roots the entries twice keeps it.
pub proof fn lemma_entries_frame_trans(a: &Compilation, b: &Compilation, c: &Compilation)
    requires
        entries_frame(a, b),
        entries_frame(b, c),
    ensures
        entries_frame(a, c),
{
    assert forall|x: ChunkUkey| #[trigger] c.chunk_graph.has_chunk(x) && !a.chunk_graph.has_chunk(x)
        implies c.chunk_graph.entry_modules(x) == Map::<ModuleIdentifier, ChunkGroupUkey>::empty() by {
        if b.chunk_graph.has_chunk(x) {
        }
    }
    assert forall|g: int| 0 <= g < a.num_groups() implies (#[trigger] c.chunk_group_by_ukey@[g]).kind
        == a.chunk_group_by_ukey@[g].kind && c.chunk_group_by_ukey@[g].entry_point_chunk
        == a.chunk_group_by_ukey@[g].entry_point_chunk by {
        assert(b.chunk_group_by_ukey@[g].kind == a.chunk_group_by_ukey@[g].kind);
    }
}

/// A new entrypoint for entry `i`, whose entry chunk is the chunk named after the entry,
/// keeps the first `i` entries rooted.
pub proof fn lemma_rooted_new_entrypoint(old: &Compilation, new: &Compilation, i: int, g: ChunkGroupUkey)
    requires
        entries_rooted_upto(old, i, i),
        0 <= i < old.entries.len(),
        new.entries == old.entries,
        new.module_graph.dependency_modules == old.module_graph.dependency_modules,
        new.named_chunks == old.named_chunks,
        new.chunk_graph == old.chunk_graph,
        old.named_chunks@.contains_key(old.entries@[i].name@),
        new.entrypoints@ == old.entrypoints@.insert(old.entries@[i].name@, g),
        g == old.num_groups(),
        new.num_groups() == old.num_groups() + 1,
        forall|h: int| 0 <= h < old.num_groups() ==> #[trigger] new.chunk_group_by_ukey@[h] == old.chunk_group_by_ukey@[h],
        new.chunk_group_by_ukey@[g as int].kind == ChunkGroupKind::Entrypoint,
        new.chunk_group_by_ukey@[g as int].entry_point_chunk == Some(old.named_chunks@[old.entries@[i].name@]),
    ensures
        entries_rooted_upto(new, i, i),
{
    assert forall|e: int| 0 <= e < i implies #[trigger] entry_rooted(new, e) by {
        assert(entry_rooted(old, e));
        let name = old.entries@[e].name@;
        let c = old.named_chunks@[name];
        if name != old.entries@[i].name@ {
            let h = old.entrypoints@[name];
            assert(new.chunk_group_by_ukey@[h as int] == old.chunk_group_by_ukey@[h as int]);
        }
        assert forall|j: int|
            0 <= j < new.entries@[e].dependencies.len() implies #[trigger] entry_dependency_rooted(new, e, j, c) by {
            assert(entry_dependency_rooted(old, e, j, c));
        }
    }
    assert forall|c: ChunkUkey, x: ModuleIdentifier|
        new.chunk_graph.has_chunk(c) && #[trigger] new.chunk_graph.entry_modules(c).contains_key(x) implies exists|e: int, jj: int|
            0 <= e < i && 0 <= jj < new.entries@[e].dependencies.len()
                && #[trigger] CodeSplitter::entry_module(new, e, jj) == Some(x)
                && new.named_chunks@.contains_key(new.entries@[e].name@)
                && new.named_chunks@[new.entries@[e].name@] == c by {
        let (e, jj) = choose|e: int, jj: int|
            0 <= e < i && 0 <= jj < old.entries@[e].dependencies.len()
                && #[trigger] CodeSplitter::entry_module(old, e, jj) == Some(x)
                && old.named_chunks@.contains_key(old.entries@[e].name@)
                && old.named_chunks@[old.entries@[e].name@] == c;
        assert(CodeSplitter::entry_module(new, e, jj) == Some(x));
    }
}

/// Connecting the module that dependency `j` of entry `i` resolves to as an entry module
/// of the chunk named after the entry keeps the entries rooted, with that dependency rooted.
pub proof fn lemma_rooted_connect(
    old: &Compilation,
    new: &Compilation,
    i: int,
    j: int,
    m: ModuleIdentifier,
    g: ChunkGroupUkey,
    chunk: ChunkUkey,
)
    requires
        entries_rooted_upto(old, i, i + 1),
        0 <= i < old.entries.len(),
        0 <= j < old.entries@[i].dependencies.len(),
        CodeSplitter::entry_module(old, i, j) == Some(m),
        old.named_chunks@.contains_key(old.entries@[i].name@),
        old.named_chunks@[old.entries@[i].name@] == chunk,
        old.chunk_graph.has_chunk(chunk),
        new.entries == old.entries,
        new.module_graph.dependency_modules == old.module_graph.dependency_modules,
        new.named_chunks == old.named_chunks,
        new.entrypoints == old.entrypoints,
        new.chunk_group_by_ukey == old.chunk_group_by_ukey,
        new.chunk_graph.chunk_graph_chunk_by_chunk_ukey@.dom() == old.chunk_graph.chunk_graph_chunk_by_chunk_ukey@.dom(),
        forall|c: ChunkUkey| #[trigger] new.chunk_graph.entry_modules(c) == if c == chunk {
            old.chunk_graph.entry_modules(c).insert(m, g)
        } else {
            old.chunk_graph.entry_modules(c)
        },
    ensures
        entries_rooted_upto(new, i, i + 1),
        forall|jj: int, c: ChunkUkey| #[trigger] entry_dependency_rooted(old, i, jj, c) ==> entry_dependency_rooted(new, i, jj, c),
        entry_dependency_rooted(new, i, j, chunk),
{
    assert forall|e: int| 0 <= e < i implies #[trigger] entry_rooted(new, e) by {
        assert(entry_rooted(old, e));
        let c = old.named_chunks@[old.entries@[e].name@];
        assert forall|jj: int|
            0 <= jj < new.entries@[e].dependencies.len() implies #[trigger] entry_dependency_rooted(new, e, jj, c) by {
            assert(entry_dependency_rooted(old, e, jj, c));
        }
    }
    assert forall|c: ChunkUkey, x: ModuleIdentifier|
        new.chunk_graph.has_chunk(c) && #[trigger] new.chunk_graph.entry_modules(c).contains_key(x) implies exists|e: int, jj: int|
            0 <= e < i + 1 && 0 <= jj < new.entries@[e].dependencies.len()
                && #[trigger] CodeSplitter::entry_module(new, e, jj) == Some(x)
                && new.named_chunks@.contains_key(new.entries@[e].name@)
                && new.named_chunks@[new.entries@[e].name@] == c by {
        if c == chunk && x == m {
            assert(CodeSplitter::entry_module(new, i, j) == Some(x));
        } else {
            assert(old.chunk_graph.has_chunk(c));
            assert(old.chunk_graph.entry_modules(c).contains_key(x));
            let (e, jj) = choose|e: int, jj: int|
                0 <= e < i + 1 && 0 <= jj < old.entries@[e].dependencies.len()
                    && #[trigger] CodeSplitter::entry_module(old, e, jj) == Some(x)
                    && old.named_chunks@.contains_key(old.entries@[e].name@)
                    && old.named_chunks@[old.entries@[e].name@] == c;
            assert(CodeSplitter::entry_module(new, e, jj) == Some(x));
        }
    }
}

/// Rooting in more entries is rooting.
pub proof fn lemma_rooted_widen(comp: &Compilation, n1: int, n2: int, n3: int)
    requires
        entries_rooted_upto(comp, n1, n2),
        n2 <= n3,
    ensures
        entries_rooted_upto(comp, n1, n3),
{
    let cg = comp.chunk_graph;
    assert forall|c: ChunkUkey, m: ModuleIdentifier|
        cg.has_chunk(c) && #[trigger] cg.entry_modules(c).contains_key(m) implies exists|e: int, j: int|
            0 <= e < n3 && 0 <= j < comp.entries@[e].dependencies.len()
                && #[trigger] CodeSplitter::entry_module(comp, e, j) == Some(m)
                && comp.named_chunks@.contains_key(comp.entries@[e].name@)
                && comp.named_chunks@[comp.entries@[e].name@] == c by {
        let (e, j) = choose|e: int, j: int|
            0 <= e < n2 && 0 <= j < comp.entries@[e].dependencies.len()
                && #[trigger] CodeSplitter::entry_module(comp, e, j) == Some(m)
                && comp.named_chunks@.contains_key(comp.entries@[e].name@)
                && comp.named_chunks@[comp.entries@[e].name@] == c;
    }
}

/// Once entry `i` is rooted, the first `i + 1` entries are.
pub proof fn lemma_rooted_close(comp: &Compilation, i: int)
    requires
        entries_rooted_upto(comp, i, i + 1),
        entry_rooted(comp, i),
    ensures
        entries_rooted_upto(comp, i + 1, i + 1),
{
}

/// Keeping what roots the entries keeps them rooted.
pub proof fn lemma_entries_rooted_frame(old: &Compilation, new: &Compilation, n1: int, n2: int)
    requires
        entries_rooted_upto(old, n1, n2),
        entries_frame(old, new),
        n1 <= old.entries.len(),
        n2 <= old.entries.len(),
    ensures
        entries_rooted_upto(new, n1, n2),
{
    assert forall|e: int| 0 <= e < n1 implies #[trigger] entry_rooted(new, e) by {
        assert(entry_rooted(old, e));
        let name = old.entries@[e].name@;
        let g = old.entrypoints@[name];
        assert(new.chunk_group_by_ukey@[g as int].kind == old.chunk_group_by_ukey@[g as int].kind);
        let c = old.named_chunks@[name];
        assert(old.chunk_graph.has_chunk(c));
        assert forall|j: int|
            0 <= j < new.entries@[e].dependencies.len() implies #[trigger] entry_dependency_rooted(new, e, j, c) by {
            assert(entry_dependency_rooted(old, e, j, c));
            assert(CodeSplitter::entry_module(old, e, j) == CodeSplitter::entry_module(new, e, j));
        }
    }
    assert forall|c: ChunkUkey, m: ModuleIdentifier|
        new.chunk_graph.has_chunk(c) && #[trigger] new.chunk_graph.entry_modules(c).contains_key(m) implies exists|e: int, j: int|
            0 <= e < n2 && 0 <= j < new.entries@[e].dependencies.len()
                && #[trigger] CodeSplitter::entry_module(new, e, j) == Some(m)
                && new.named_chunks@.contains_key(new.entries@[e].name@)
                && new.named_chunks@[new.entries@[e].name@] == c by {
        assert(old.chunk_graph.has_chunk(c));
        assert(old.chunk_graph.entry_modules(c).contains_key(m));
        let (e, j) = choose|e: int, j: int|
            0 <= e < n2 && 0 <= j < old.entries@[e].dependencies.len()
                && #[trigger] CodeSplitter::entry_module(old, e, j) == Some(m)
                && old.named_chunks@.contains_key(old.entries@[e].name@)
                && old.named_chunks@[old.entries@[e].name@] == c;
        assert(CodeSplitter::entry_module(old, e, j) == CodeSplitter::entry_module(new, e, j));
    }
}

/// What to do with a module when its queue item comes up.
#[derive(Clone, Copy, Debug, PartialEq, Eq)]
pub enum QueueAction {
    AddAndEnter,
    _Enter,
    _ProcessModule,
    Leave,
}

/// A unit of work of the code splitter: a module, in a chunk, reached through a chunk group.
#[derive(Clone, Copy, Debug, PartialEq, Eq)]
pub struct QueueItem {
    pub action: QueueAction,
    pub chunk_group: ChunkGroupUkey,
    pub chunk: ChunkUkey,
    pub module_identifier: ModuleIdentifier,
}

/// The number of module memberships over the chunks below `n`.
pub open spec fn total_connections(cg: ChunkGraph, n: nat) -> nat
    decreases n,
{
    if n == 0 {
        0
    } else {
        total_connections(cg, (n - 1) as nat) + if cg.has_chunk((n - 1) as usize) {
            cg.chunk_modules((n - 1) as usize).len()
        } else {
            0
        }
    }
}

/// Two chunk graphs that agree on the chunks below `n` count the same memberships there.
pub proof fn lemma_total_connections_frame(a: ChunkGraph, b: ChunkGraph, n: nat)
    requires
        forall|c: usize|
            c < n ==> (a.has_chunk(c) == b.has_chunk(c) && (a.has_chunk(c) ==> a.chunk_modules(c)
                == b.chunk_modules(c))),
    ensures
        total_connections(a, n) == total_connections(b, n),
    decreases n,
{
    if n > 0 {
        lemma_total_connections_frame(a, b, (n - 1) as nat);
        assert(a.has_chunk((n - 1) as usize) == b.has_chunk((n - 1) as usize));
    }
}

/// Adding one module to one chunk below `n` adds one membership.
pub proof fn lemma_total_connections_insert(
    a: ChunkGraph,
    b: ChunkGraph,
    n: nat,
    c0: usize,
    m: usize,
)
    requires
        n <= usize::MAX + 1,
        c0 < n,
        a.has_chunk(c0),
        a.chunk_modules(c0).finite(),
        !a.chunk_modules(c0).contains(m),
        b.has_chunk(c0),
        b.chunk_modules(c0) == a.chunk_modules(c0).insert(m),
        forall|c: usize|
            c < n && c != c0 ==> (a.has_chunk(c) == b.has_chunk(c) && (a.has_chunk(c)
                ==> a.chunk_modules(c) == b.chunk_modules(c))),
    ensures
        total_connections(b, n) == total_connections(a, n) + 1,
    decreases n,
{
    if n - 1 == c0 {
        lemma_total_connections_frame(a, b, (n - 1) as nat);
        assert(b.chunk_modules(c0).len() == a.chunk_modules(c0).len() + 1);
    } else {
        lemma_total_connections_insert(a, b, (n - 1) as nat, c0, m);
        assert(a.has_chunk((n - 1) as usize) == b.has_chunk((n - 1) as usize));
    }
}

/// Chunks whose modules all lie below `num_modules` hold at most `n * num_modules` memberships.
pub proof fn lemma_total_connections_bound(cg: ChunkGraph, n: nat, num_modules: nat)
    requires
        num_modules <= usize::MAX + 1,
        forall|c: usize, m: usize|
            c < n && cg.has_chunk(c) && #[trigger] cg.chunk_modules(c).contains(m) ==> m
                < num_modules,
    ensures
        total_connections(cg, n) <= n * num_modules,
    decreases n,
{
    if n > 0 {
        lemma_total_connections_bound(cg, (n - 1) as nat, num_modules);
        let c = (n - 1) as usize;
        if cg.has_chunk(c) {
            lemma_bounded_set_len(cg.chunk_modules(c), num_modules);
        }
        assert((n - 1) * num_modules + num_modules == n * num_modules) by (nonlinear_arith);
    }
}

/// Splits the modules of a compilation into chunks: one chunk per entry, one more per module
/// that is imported dynamically, each holding the modules its roots import statically.
pub struct CodeSplitter {
    pub compilation: Compilation,
    pub next_free_module_pre_order_index: usize,
    pub next_free_module_post_order_index: usize,
    pub queue: Vec<QueueItem>,
    pub queue_delayed: Vec<QueueItem>,
    /// An edge leads from a chunk split off at a dynamic import to the chunk that imports it.
    pub chunk_relation_graph: DiGraphMap<ChunkUkey, ()>,
    pub split_point_modules: HashSet<ModuleIdentifier>,
    /// For each split point, the chunk whose module imported it when it was split off.
    pub split_from: Ghost<Map<ModuleIdentifier, ChunkUkey>>,
}


/// What holds between two steps of a run that started from a fresh compilation: the
/// chunks grow towards what their roots reach.
impl CodeSplitter {
    /// The static import graph of the modules.
    pub open spec fn graph(&self) -> Seq<Seq<usize>> {
        dep_graph(&self.compilation.module_graph)
    }

    /// Whether chunk `c` exists and holds module `m`.
    pub open spec fn chunk_has(&self, c: ChunkUkey, m: ModuleIdentifier) -> bool {
        &&& c < self.num_chunks()
        &&& m < self.num_modules()
        &&& self.compilation.chunk_graph.chunk_modules(c).contains(m)
    }

    pub open spec fn module_deps(&self, m: ModuleIdentifier) -> Seq<usize> {
        self.compilation.module_graph.modules@[m as int].dependencies@
    }

    pub open spec fn module_dyn_deps(&self, m: ModuleIdentifier) -> Seq<usize> {
        self.compilation.module_graph.modules@[m as int].dynamic_dependencies@
    }

    pub open spec fn module_pre(&self, m: ModuleIdentifier) -> Option<usize> {
        self.compilation.module_graph.modules@[m as int].pre_order_index
    }

    pub open spec fn module_post(&self, m: ModuleIdentifier) -> Option<usize> {
        self.compilation.module_graph.modules@[m as int].post_order_index
    }

    pub open spec fn group(&self, g: ChunkGroupUkey) -> ChunkGroup {
        self.compilation.chunk_group_by_ukey@[g as int]
    }

    pub open spec fn edges(&self) -> Set<(usize, usize)> {
        relation_edges(self.chunk_relation_graph)
    }

    /// An item that would add module `m` to chunk `c`.
    pub open spec fn adds(item: QueueItem, c: ChunkUkey, m: ModuleIdentifier) -> bool {
        item.action == QueueAction::AddAndEnter && item.chunk == c && item.module_identifier == m
    }

    /// An item that would leave module `m` in group `g`.
    pub open spec fn leaves(item: QueueItem, g: ChunkGroupUkey, m: ModuleIdentifier) -> bool {
        item.action == QueueAction::Leave && item.chunk_group == g && item.module_identifier == m
    }

    /// Module `m` is queued to be added to chunk `c` (or is the item `extra` in hand).
    pub open spec fn pending_add(
        &self,
        c: ChunkUkey,
        m: ModuleIdentifier,
        extra: Option<QueueItem>,
    ) -> bool {
        ||| exists|i: int| 0 <= i < self.queue.len() && Self::adds(#[trigger] self.queue@[i], c, m)
        ||| exists|i: int|
            0 <= i < self.queue_delayed.len() && Self::adds(#[trigger] self.queue_delayed@[i], c, m)
        ||| extra matches Some(it) && Self::adds(it, c, m)
    }

    /// Module `m` is queued to be left in group `g` (or is the item `extra` in hand).
    pub open spec fn pending_leave(
        &self,
        g: ChunkGroupUkey,
        m: ModuleIdentifier,
        extra: Option<QueueItem>,
    ) -> bool {
        ||| exists|i: int| 0 <= i < self.queue.len() && Self::leaves(#[trigger] self.queue@[i], g, m)
        ||| extra matches Some(it) && Self::leaves(it, g, m)
    }

    /// Every chunk member, and every queued addition, is reachable from its chunk's roots.
    pub open spec fn law_sound(&self, extra: Option<QueueItem>) -> bool {
        &&& forall|c: ChunkUkey, m: ModuleIdentifier| #[trigger]
            self.chunk_has(c, m) ==> reachable(self.graph(), self.compilation.chunk_graph, c, m)
        &&& forall|i: int|
            0 <= i < self.queue.len() && (#[trigger] self.queue@[i]).action
                == QueueAction::AddAndEnter ==> reachable(
                self.graph(),
                self.compilation.chunk_graph,
                self.queue@[i].chunk,
                self.queue@[i].module_identifier,
            )
        &&& forall|i: int|
            0 <= i < self.queue_delayed.len() && (#[trigger] self.queue_delayed@[i]).action
                == QueueAction::AddAndEnter ==> reachable(
                self.graph(),
                self.compilation.chunk_graph,
                self.queue_delayed@[i].chunk,
                self.queue_delayed@[i].module_identifier,
            )
        &&& extra matches Some(it) ==> (it.action == QueueAction::AddAndEnter ==> reachable(
            self.graph(),
            self.compilation.chunk_graph,
            it.chunk,
            it.module_identifier,
        ))
    }

    /// Every root of a chunk is in it or queued for it.
    pub open spec fn law_roots(&self, extra: Option<QueueItem>) -> bool {
        forall|c: ChunkUkey, r: ModuleIdentifier|
            c < self.num_chunks() && #[trigger] is_root(self.compilation.chunk_graph, c, r)
                ==> self.chunk_has(c, r) || self.pending_add(c, r, extra)
    }

    /// Every split point has its chunk, and a relation from that chunk to a chunk holding
    /// a module that imports it dynamically.
    #[verifier::opaque]
    pub open spec fn law_split_points(&self) -> bool {
        let sp = self.compilation.chunk_graph.split_points();
        forall|d: ModuleIdentifier| #[trigger]
            self.split_point_modules@.contains(d) ==> {
                &&& sp.contains_key(d)
                &&& sp[d] < self.num_chunks()
                &&& exists|b: ChunkUkey, x: ModuleIdentifier|
                    #![trigger self.edges().contains((sp[d], b)), self.chunk_has(b, x)]
                    self.edges().contains((sp[d], b)) && self.chunk_has(b, x)
                        && self.module_dyn_deps(x).contains(d)
            }
    }

    /// A recorded chunk of a module that is no split point is a chunk it is an entry module of.
    #[verifier::opaque]
    pub open spec fn law_split_entries(&self) -> bool {
        let sp = self.compilation.chunk_graph.split_points();
        forall|m: ModuleIdentifier| #[trigger]
            sp.contains_key(m) && !self.split_point_modules@.contains(m) ==> {
                &&& self.compilation.chunk_graph.has_chunk(sp[m])
                &&& self.compilation.chunk_graph.entry_modules(sp[m]).contains_key(m)
            }
    }

    /// Every relation leads from the chunk of a split point to a chunk holding a module that
    /// imports it dynamically.
    #[verifier::opaque]
    pub open spec fn law_relations(&self) -> bool {
        let sp = self.compilation.chunk_graph.split_points();
        forall|a: ChunkUkey, b: ChunkUkey| #[trigger]
            self.edges().contains((a, b)) ==> {
                &&& b < self.num_chunks()
                &&& exists|d: ModuleIdentifier, x: ModuleIdentifier|
                    #![trigger self.split_point_modules@.contains(d), self.chunk_has(b, x)]
                    self.split_point_modules@.contains(d) && sp[d] == a && self.chunk_has(b, x)
                        && self.module_dyn_deps(x).contains(d)
            }
    }

    /// Split points, recorded split chunks and chunk relations agree.
    pub open spec fn law_splits(&self) -> bool {
        &&& self.law_split_points()
        &&& self.law_split_entries()
        &&& self.law_relations()
    }

    /// Order indices are distinct and below their counters; a left module was entered, and
    /// an entered one is left or queued to be left.
    pub open spec fn law_module_orders(&self) -> bool {
        &&& forall|m: ModuleIdentifier|
            m < self.num_modules() && (#[trigger] self.module_pre(m)) is Some ==> self.module_pre(
                m,
            ).unwrap() < self.next_free_module_pre_order_index
        &&& forall|m1: ModuleIdentifier, m2: ModuleIdentifier|
            m1 < self.num_modules() && m2 < self.num_modules() && m1 != m2 && (#[trigger] self.module_pre(m1)) is Some
                && (#[trigger] self.module_pre(m2)) is Some ==> self.module_pre(m1) != self.module_pre(m2)
        &&& forall|m: ModuleIdentifier|
            m < self.num_modules() && (#[trigger] self.module_post(m)) is Some ==> self.module_post(
                m,
            ).unwrap() < self.next_free_module_post_order_index && self.module_pre(m) is Some
        &&& forall|m1: ModuleIdentifier, m2: ModuleIdentifier|
            m1 < self.num_modules() && m2 < self.num_modules() && m1 != m2 && (#[trigger] self.module_post(m1)) is Some
                && (#[trigger] self.module_post(m2)) is Some ==> self.module_post(m1) != self.module_post(m2)
    }

    /// Group order indices are distinct and below their counters; a group's left module was
    /// entered in it, and an entered one is left or queued to be left.
    pub open spec fn law_group_orders(&self, extra: Option<QueueItem>) -> bool {
        &&& forall|g: ChunkGroupUkey, m: ModuleIdentifier|
            g < self.compilation.num_groups() && #[trigger] self.group(g).module_pre_order_indices@.contains_key(m) ==> {
                &&& self.group(g).module_pre_order_indices@[m] < self.group(g).next_pre_order_index
                &&& (self.group(g).module_post_order_indices@.contains_key(m) || self.pending_leave(g, m, extra))
            }
        &&& forall|g: ChunkGroupUkey, m1: ModuleIdentifier, m2: ModuleIdentifier|
            g < self.compilation.num_groups() && m1 != m2
                && #[trigger] self.group(g).module_pre_order_indices@.contains_key(m1)
                && #[trigger] self.group(g).module_pre_order_indices@.contains_key(m2)
                ==> self.group(g).module_pre_order_indices@[m1] != self.group(g).module_pre_order_indices@[m2]
        &&& forall|g: ChunkGroupUkey, m: ModuleIdentifier|
            g < self.compilation.num_groups() && #[trigger] self.group(g).module_post_order_indices@.contains_key(m) ==> {
                &&& self.group(g).module_post_order_indices@[m] < self.group(g).next_post_order_index
                &&& self.group(g).module_pre_order_indices@.contains_key(m)
            }
        &&& forall|g: ChunkGroupUkey, m1: ModuleIdentifier, m2: ModuleIdentifier|
            g < self.compilation.num_groups() && m1 != m2
                && #[trigger] self.group(g).module_post_order_indices@.contains_key(m1)
                && #[trigger] self.group(g).module_post_order_indices@.contains_key(m2)
                ==> self.group(g).module_post_order_indices@[m1] != self.group(g).module_post_order_indices@[m2]
    }

    /// Order indices are in order, for modules and for groups.
    pub open spec fn law_orders(&self, extra: Option<QueueItem>) -> bool {
        self.law_module_orders() && self.law_group_orders(extra)
    }

    /// What a chunk member owes: its static imports are in the chunk or queued for it,
    /// its dynamic imports are split points.
    pub open spec fn member_deps(
        &self,
        c: ChunkUkey,
        m: ModuleIdentifier,
        extra: Option<QueueItem>,
    ) -> bool {
        &&& forall|j: int|
            0 <= j < self.module_deps(m).len() ==> self.chunk_has(c, #[trigger] self.module_deps(m)[j])
                || self.pending_add(c, self.module_deps(m)[j], extra)
        &&& forall|j: int|
            0 <= j < self.module_dyn_deps(m).len() ==> self.split_point_modules@.contains(
                #[trigger] self.module_dyn_deps(m)[j],
            )
    }

    /// A chunk member has been entered, and has been left or is queued to be left.
    pub open spec fn member_entered(&self, m: ModuleIdentifier, extra: Option<QueueItem>) -> bool {
        &&& self.module_pre(m) is Some
        &&& self.module_post(m) is Some || exists|g: ChunkGroupUkey| #[trigger] self.pending_leave(g, m, extra)
    }

    /// New chunks start without runtimes.
    pub open spec fn law_runtimes(&self) -> bool {
        forall|c: int| 0 <= c < self.num_chunks() ==> (#[trigger] self.compilation.chunk_by_ukey@[c]).runtime@.len() == 0
    }

    /// The parts of the law that do not speak of single chunk members.
    pub open spec fn law_core(&self, extra: Option<QueueItem>) -> bool {
        &&& self.law_sound(extra)
        &&& self.law_roots(extra)
        &&& self.law_splits()
        &&& self.law_orders(extra)
        &&& self.law_runtimes()
    }

    /// The law of a run from a fresh compilation, between two steps.
    pub open spec fn law(&self, extra: Option<QueueItem>) -> bool {
        &&& self.law_core(extra)
        &&& forall|c: ChunkUkey, m: ModuleIdentifier| #[trigger]
            self.chunk_has(c, m) ==> self.member_deps(c, m, extra) && self.member_entered(m, extra)
    }

    /// The law, right after module `x` was put into chunk `c0` and before it is entered.
    pub open spec fn law_before_enter(&self, c0: ChunkUkey, x: ModuleIdentifier) -> bool {
        &&& self.law_core(None)
        &&& self.chunk_has(c0, x)
        &&& forall|c: ChunkUkey, m: ModuleIdentifier| #[trigger]
            self.chunk_has(c, m) && (c != c0 || m != x) ==> self.member_deps(c, m, None) && self.member_entered(m, None)
    }

    /// The law, right after module `x` of chunk `c0` was entered and before it is processed.
    pub open spec fn law_before_process(&self, c0: ChunkUkey, x: ModuleIdentifier) -> bool {
        &&& self.law_core(None)
        &&& self.chunk_has(c0, x)
        &&& forall|c: ChunkUkey, m: ModuleIdentifier| #[trigger]
            self.chunk_has(c, m) ==> self.member_entered(m, None)
        &&& forall|c: ChunkUkey, m: ModuleIdentifier| #[trigger]
            self.chunk_has(c, m) && (c != c0 || m != x) ==> self.member_deps(c, m, None)
    }
}

impl CodeSplitter {
    /// A splitter that has done nothing yet, on a compilation that has not been split.
    pub open spec fn is_fresh(&self) -> bool {
        &&& self.compilation.is_unsplit()
        &&& self.queue@.len() == 0
        &&& self.queue_delayed@.len() == 0
        &&& self.split_point_modules@ == Set::<ModuleIdentifier>::empty()
        &&& self.edges() == Set::<(usize, usize)>::empty()
        &&& self.next_free_module_pre_order_index == 0
        &&& self.next_free_module_post_order_index == 0
    }

    /// What the preparation of the entrypoints leaves behind when it starts fresh: no chunk
    /// holds a module or has a runtime, no group has numbered a module, and every module
    /// recorded as starting a chunk is an entry module of it, but for the modules of
    /// `pending`, recorded for chunk `cur` and not connected yet.
    pub open spec fn prepared_but(&self, pending: Seq<ModuleIdentifier>, cur: ChunkUkey) -> bool {
        let cg = self.compilation.chunk_graph;
        &&& forall|c: ChunkUkey| #[trigger]
            cg.has_chunk(c) ==> cg.chunk_modules(c) == Set::<ModuleIdentifier>::empty()
        &&& forall|c: int|
            0 <= c < self.num_chunks() ==> (#[trigger] self.compilation.chunk_by_ukey@[c]).runtime@.len() == 0
        &&& forall|h: ChunkGroupUkey|
            h < self.compilation.num_groups() ==> (#[trigger] self.group(h)).module_pre_order_indices@
                == Map::<ModuleIdentifier, usize>::empty() && self.group(h).module_post_order_indices@
                == Map::<ModuleIdentifier, usize>::empty()
        &&& forall|m: ModuleIdentifier| #[trigger]
            cg.split_points().contains_key(m) ==> cg.has_chunk(cg.split_points()[m]) && (
            cg.entry_modules(cg.split_points()[m]).contains_key(m) || (pending.contains(m)
                && cg.split_points()[m] == cur))
    }

    /// The entry modules of the chunks are those that `input` lists with the entry chunks
    /// of their entrypoints, but for the modules of `extra`, entry modules of chunk `cur`.
    pub open spec fn input_covers_but(
        &self,
        input: Seq<(ChunkGroupUkey, Vec<ModuleIdentifier>)>,
        extra: Seq<ModuleIdentifier>,
        cur: ChunkUkey,
    ) -> bool {
        &&& self.entries_listed(input, extra, cur)
        &&& self.listed_are_entries(input)
    }

    /// Every entry module of a chunk is listed in `input` with an entrypoint whose entry chunk
    /// it is, or is in `extra` and `cur` is the chunk.
    pub open spec fn entries_listed(
        &self,
        input: Seq<(ChunkGroupUkey, Vec<ModuleIdentifier>)>,
        extra: Seq<ModuleIdentifier>,
        cur: ChunkUkey,
    ) -> bool {
        let cg = self.compilation.chunk_graph;
        forall|c: ChunkUkey, m: ModuleIdentifier|
            cg.has_chunk(c) && #[trigger] cg.entry_modules(c).contains_key(m) ==> (c == cur
                && extra.contains(m)) || exists|k: int, j: int|
                0 <= k < input.len() && 0 <= j < input[k].1.len() && self.group(input[k].0).entry_point_chunk
                    == Some(c) && #[trigger] input[k].1@[j] == m
    }

    /// Every module that `input` lists is an entry module of the entry chunk of its entrypoint.
    pub open spec fn listed_are_entries(&self, input: Seq<(ChunkGroupUkey, Vec<ModuleIdentifier>)>) -> bool {
        forall|k: int, j: int|
            0 <= k < input.len() && 0 <= j < input[k].1.len() ==> self.is_entry_of(input[k].0, #[trigger] input[k].1@[j])
    }

    /// Module `m` is an entry module of the entry chunk of group `g`.
    pub open spec fn is_entry_of(&self, g: ChunkGroupUkey, m: ModuleIdentifier) -> bool {
        let cg = self.compilation.chunk_graph;
        &&& self.group(g).entry_point_chunk is Some
        &&& cg.has_chunk(self.entry_chunk(g))
        &&& cg.entry_modules(self.entry_chunk(g)).contains_key(m)
    }

    /// The entry chunk of group `g`.
    pub open spec fn entry_chunk(&self, g: ChunkGroupUkey) -> ChunkUkey {
        self.group(g).entry_point_chunk.unwrap()
    }

    pub open spec fn num_modules(&self) -> nat {
        self.compilation.num_modules()
    }

    pub open spec fn num_chunks(&self) -> nat {
        self.compilation.num_chunks()
    }

    /// The modules that have a pre-order index.
    pub open spec fn pre_numbered(&self) -> Set<ModuleIdentifier> {
        Set::new(
            |m: ModuleIdentifier|
                m < self.num_modules()
                    && self.compilation.module_graph.modules@[m as int].pre_order_index is Some,
        )
    }

    /// The modules that have a post-order index.
    pub open spec fn post_numbered(&self) -> Set<ModuleIdentifier> {
        Set::new(
            |m: ModuleIdentifier|
                m < self.num_modules()
                    && self.compilation.module_graph.modules@[m as int].post_order_index is Some,
        )
    }

    /// The number of module memberships of all chunks.
    pub open spec fn connections(&self) -> nat {
        total_connections(self.compilation.chunk_graph, self.num_chunks())
    }

    /// How many modules can still become split points.
    pub open spec fn measure_splits(&self) -> nat {
        (self.num_modules() - self.split_point_modules@.len()) as nat
    }

    /// How many memberships can still be added among the present chunks.
    pub open spec fn measure_connections(&self) -> nat {
        (self.num_chunks() * self.num_modules() - self.connections()) as nat
    }

    /// A queue item that refers to existing things.
    pub open spec fn refs_ok(&self, item: QueueItem) -> bool {
        &&& item.chunk < self.num_chunks()
        &&& item.chunk_group < self.compilation.num_groups()
        &&& item.module_identifier < self.num_modules()
    }

    /// A queue item that refers to existing things, and, when it leaves a module,
    /// to a module that was entered.
    pub open spec fn item_ok(&self, item: QueueItem) -> bool {
        &&& self.refs_ok(item)
        &&& item.action == QueueAction::AddAndEnter || item.action == QueueAction::Leave
        &&& item.action == QueueAction::Leave ==> {
            &&& self.compilation.module_graph.modules@[item.module_identifier as int].pre_order_index is Some
            &&& self.compilation.chunk_group_by_ukey@[item.chunk_group as int].module_pre_order_indices@.contains_key(
                item.module_identifier,
            )
        }
    }

    /// An entrypoint with its entry modules, as the preparation hands them on.
    pub open spec fn input_ok(&self, entry: (ChunkGroupUkey, Vec<ModuleIdentifier>)) -> bool {
        let group = self.compilation.chunk_group_by_ukey@[entry.0 as int];
        &&& entry.0 < self.compilation.num_groups()
        &&& group.entry_point_chunk is Some
        &&& forall|j: int| 0 <= j < entry.1.len() ==> #[trigger] entry.1@[j] < self.num_modules()
    }

    /// Only the compilation's chunks, groups, names and chunk graph differ from `start`, and
    /// only by growing.
    pub open spec fn grown_from(&self, start: &CodeSplitter) -> bool {
        &&& start.inv()
        &&& self.compilation.wf()
        &&& Self::extends(self, start)
        &&& self.queue == start.queue
        &&& self.queue_delayed == start.queue_delayed
        &&& self.split_point_modules == start.split_point_modules
        &&& self.split_from == start.split_from
        &&& self.chunk_relation_graph == start.chunk_relation_graph
        &&& self.next_free_module_pre_order_index == start.next_free_module_pre_order_index
        &&& self.next_free_module_post_order_index == start.next_free_module_post_order_index
        &&& self.compilation.module_graph == start.compilation.module_graph
        &&& self.compilation.entries == start.compilation.entries
    }

    /// What holds of the splitter between two steps.
    pub open spec fn inv(&self) -> bool {
        &&& self.compilation.wf()
        &&& forall|i: int| 0 <= i < self.queue.len() ==> self.item_ok(#[trigger] self.queue@[i])
        &&& forall|i: int|
            0 <= i < self.queue_delayed.len() ==> self.item_ok(#[trigger] self.queue_delayed@[i])
        &&& forall|m: ModuleIdentifier| #[trigger]
            self.split_point_modules@.contains(m) ==> m < self.num_modules()
        &&& self.next_free_module_pre_order_index <= self.pre_numbered().len()
        &&& self.next_free_module_post_order_index <= self.post_numbered().len()
        &&& self.connections() <= self.num_chunks() * self.num_modules()
    }

    /// Nothing that bounds the work left has grown: either a new split point was found,
    /// or the chunks and their memberships are as they were.
    pub open spec fn no_regress(old: &CodeSplitter, new: &CodeSplitter) -> bool {
        ||| new.measure_splits() < old.measure_splits()
        ||| {
            &&& new.measure_splits() == old.measure_splits()
            &&& new.num_chunks() == old.num_chunks()
            &&& new.connections() == old.connections()
        }
    }

    /// Work was done that can be done only finitely often.
    pub open spec fn progressed(old: &CodeSplitter, new: &CodeSplitter) -> bool {
        ||| new.measure_splits() < old.measure_splits()
        ||| {
            &&& new.measure_splits() == old.measure_splits()
            &&& new.measure_connections() < old.measure_connections()
        }
    }

    /// `new` has all that `old` has: as many modules, at least as many chunks and groups,
    /// and every order index that `old` gave.
    pub open spec fn extends(new: &CodeSplitter, old: &CodeSplitter) -> bool {
        &&& new.num_modules() == old.num_modules()
        &&& new.num_chunks() >= old.num_chunks()
        &&& new.compilation.num_groups() >= old.compilation.num_groups()
        &&& forall|m: int|
            0 <= m < old.num_modules() && (
            #[trigger] old.compilation.module_graph.modules@[m]).pre_order_index is Some
                ==> new.compilation.module_graph.modules@[m].pre_order_index is Some
        &&& forall|g: int, m: ModuleIdentifier|
            0 <= g < old.compilation.num_groups()
                && #[trigger] old.compilation.chunk_group_by_ukey@[g].module_pre_order_indices@.contains_key(m)
                ==> new.compilation.chunk_group_by_ukey@[g].module_pre_order_indices@.contains_key(
                m,
            )
    }

    /// Items that were fine stay fine as the splitter grows.
    pub proof fn lemma_items_carry_over(new: &CodeSplitter, old: &CodeSplitter, items: Seq<QueueItem>)
        requires
            Self::extends(new, old),
            forall|i: int| 0 <= i < items.len() ==> old.item_ok(#[trigger] items[i]),
        ensures
            forall|i: int| 0 <= i < items.len() ==> new.item_ok(#[trigger] items[i]),
    {
        assert forall|i: int| 0 <= i < items.len() implies new.item_ok(#[trigger] items[i]) by {
            let it = items[i];
            assert(old.item_ok(it));
            if it.action == QueueAction::Leave {
                assert(old.compilation.module_graph.modules@[it.module_identifier as int].pre_order_index is Some);
                assert(old.compilation.chunk_group_by_ukey@[it.chunk_group as int].module_pre_order_indices@.contains_key(it.module_identifier));
            }
        }
    }

    /// Queues the static dependencies of the module of `item` in the same chunk, and splits
    /// a new chunk off at each dynamic dependency that is not a split point yet.
    fn process_module(&mut self, item: &QueueItem)
        requires
            old(self).inv(),
            item.chunk < old(self).num_chunks(),
            item.module_identifier < old(self).num_modules(),
            old(self).needs_group(*item) ==> item.chunk_group < old(self).compilation.num_groups(),
        ensures
            final(self).inv(),
            Self::no_regress(old(self), final(self)),
            Self::extends(final(self), old(self)),
            final(self).processed(old(self), *item, old(self).queue@),
            old(self).law_links() && old(self).chunk_has(item.chunk, item.module_identifier) ==> final(self).law_links(),
            old(self).law_names() ==> final(self).law_names(),
            old(self).law_indexed() ==> final(self).law_indexed(),
            old(self).law_chunk_ids() ==> final(self).law_chunk_ids(),
            final(self).new_chunks_id_named(old(self).num_chunks()),
            final(self).delayed_grew(old(self)),
            old(self).law_before_process(item.chunk, item.module_identifier) ==> final(self).law(None),
            entries_frame(&old(self).compilation, &final(self).compilation),
    {
        let ghost old_self = *self;
        let m = item.module_identifier;
        let num_deps = self.compilation.module_graph.modules[m].dependencies.len();
        let mut k = num_deps;
        while k > 0
            invariant
                k <= num_deps,
                m == item.module_identifier,
                num_deps == self.compilation.module_graph.modules@[m as int].dependencies.len(),
                self.compilation == old_self.compilation,
                self.queue_delayed == old_self.queue_delayed,
                self.split_point_modules == old_self.split_point_modules,
                self.split_from == old_self.split_from,
                old_self.law_links() ==> self.law_links(),
                old_self.law_names() ==> self.law_names(),
                self.chunk_relation_graph == old_self.chunk_relation_graph,
                self.next_free_module_pre_order_index == old_self.next_free_module_pre_order_index,
                self.next_free_module_post_order_index
                    == old_self.next_free_module_post_order_index,
                self.inv(),
                item.chunk < self.num_chunks(),
                item.module_identifier < self.num_modules(),
                old_self.needs_group(*item) ==> item.chunk_group < self.compilation.num_groups(),
                old_self.law_before_process(item.chunk, m) ==> self.law_queueing(item.chunk, m, k as int),
                self.queue@ == old_self.queue@ + static_items(*item, old_self.module_deps(m)).subrange(
                    0,
                    num_deps - k,
                ),
            decreases k,
        {
            k = k - 1;
            let dep = self.compilation.module_graph.modules[m].dependencies[k];
            proof {
                assert(self.compilation.module_graph.modules@[m as int].dependencies@[k as int]
                    < self.num_modules());
            }
            proof {
                assert(old_self.module_deps(m).len() > 0);
                assert(old_self.needs_group(*item));
                assert(self.refs_ok(*item));
            }
            let ghost before = self.queue@;
            let ghost prev = *self;
            self.queue.push(
                QueueItem {
                    action: QueueAction::AddAndEnter,
                    chunk: item.chunk,
                    chunk_group: item.chunk_group,
                    module_identifier: dep,
                },
            );
            proof {
                assert forall|i: int| 0 <= i < self.queue.len() implies self.item_ok(
                    #[trigger] self.queue@[i],
                ) by {
                    if i < before.len() {
                        assert(self.queue@[i] == before[i]);
                    }
                }
                if old_self.law_before_process(item.chunk, m) {
                    self.lemma_push_dep_law(&prev, item.chunk, m, item.chunk_group, k as int);
                }
                if old_self.law_links() {
                    self.lemma_links_frame(&prev);
                }
                if old_self.law_names() {
                    self.lemma_names_frame(&prev);
                }
                let st = static_items(*item, old_self.module_deps(m));
                assert(st[num_deps - k - 1] == self.queue@[self.queue.len() - 1]);
                assert(self.queue@ =~= old_self.queue@ + st.subrange(0, num_deps - k));
            }
        }
        proof {
            lemma_entries_frame_refl(&self.compilation);
            let st = static_items(*item, old_self.module_deps(m));
            assert(st.subrange(0, num_deps as int) =~= st);
            let e = fresh_splits(old_self.module_dyn_deps(m), old_self.split_point_modules@, 0);
            assert(e =~= Seq::<ModuleIdentifier>::empty());
            assert(self.split_items(&old_self, e) =~= Seq::<QueueItem>::empty());
            assert(self.queue_delayed@ =~= old_self.queue_delayed@ + self.split_items(&old_self, e));
            assert(self.split_point_modules@ =~= old_self.split_point_modules@.union(e.to_set()));
            assert(forall|d: ModuleIdentifier| !e.contains(d));
            assert(Map::new(|d: ModuleIdentifier| e.contains(d), |d: ModuleIdentifier| item.chunk) =~= Map::<ModuleIdentifier, ChunkUkey>::empty());
            assert(old_self.split_from@.union_prefer_right(Map::<ModuleIdentifier, ChunkUkey>::empty()) =~= old_self.split_from@);
            assert(self.split_from@ =~= old_self.split_from@.union_prefer_right(
                Map::new(|d: ModuleIdentifier| e.contains(d), |d: ModuleIdentifier| item.chunk),
            ));
            assert(self.split_edges(e, item.chunk) =~= Set::<(usize, usize)>::empty());
            assert(self.edges() =~= old_self.edges().union(self.split_edges(e, item.chunk)));
            assert(self.split_off(&old_self, *item, e));
            assert(self.fresh_names(e) =~= Set::<Seq<char>>::empty());
            assert(self.compilation.named_chunks@.dom() =~= old_self.compilation.named_chunks@.dom().union(self.fresh_names(e)));
            assert(self.chunks_split(&old_self, e));
            if old_self.law_chunk_ids() {
                self.lemma_id_named_carry(&old_self, 0);
            }
        }
        let num_dyn = self.compilation.module_graph.modules[m].dynamic_dependencies.len();
        let mut k = num_dyn;
        while k > 0
            invariant
                k <= num_dyn,
                m == item.module_identifier,
                m < self.num_modules(),
                num_dyn == self.compilation.module_graph.modules@[m as int].dynamic_dependencies.len(),
                self.compilation.module_graph == old_self.compilation.module_graph,
                self.compilation.entries == old_self.compilation.entries,
                self.next_free_module_pre_order_index == old_self.next_free_module_pre_order_index,
                self.next_free_module_post_order_index
                    == old_self.next_free_module_post_order_index,
                self.inv(),
                old_self.inv(),
                item.chunk < self.num_chunks(),
                item.module_identifier < self.num_modules(),
                old_self.needs_group(*item) ==> item.chunk_group < self.compilation.num_groups(),
                Self::extends(self, &old_self),
                Self::no_regress(&old_self, self),
                old_self.law_before_process(item.chunk, m) ==> self.law_processing(item.chunk, m, k as int),
                entries_frame(&old_self.compilation, &self.compilation),
                self.queue@ == old_self.queue@ + static_items(*item, old_self.module_deps(m)),
                old_self.law_links() && old_self.chunk_has(item.chunk, m) ==> self.law_links(),
                old_self.chunk_has(item.chunk, m) ==> self.chunk_has(item.chunk, m),
                old_self.law_names() ==> self.law_names(),
                old_self.law_chunk_ids() ==> self.law_chunk_ids(),
                self.new_chunks_id_named(old_self.num_chunks()),
                self.split_off(
                    &old_self,
                    *item,
                    fresh_splits(old_self.module_dyn_deps(m), old_self.split_point_modules@, (num_dyn - k) as nat),
                ),
                self.chunks_split(
                    &old_self,
                    fresh_splits(old_self.module_dyn_deps(m), old_self.split_point_modules@, (num_dyn - k) as nat),
                ),
            decreases k,
        {
            k = k - 1;
            let dyn_dep = self.compilation.module_graph.modules[m].dynamic_dependencies[k];
            proof {
                assert(self.compilation.module_graph.modules@[m as int].dynamic_dependencies@[k as int]
                    < self.num_modules());
            }
            let ghost prev = *self;
            let ghost p = fresh_splits(old_self.module_dyn_deps(m), old_self.split_point_modules@, (num_dyn - k - 1) as nat);
            proof {
                let d = old_self.module_dyn_deps(m);
                assert(d[d.len() - (num_dyn - k)] == dyn_dep);
                assert(self.split_point_modules@.contains(dyn_dep) <==> old_self.split_point_modules@.contains(dyn_dep) || p.contains(dyn_dep));
            }
            if self.split_point_modules.contains(&dyn_dep) {
                proof {
                    if old_self.law_before_process(item.chunk, m) {
                        assert forall|j: int|
                            k <= j < self.module_dyn_deps(m).len() implies self.split_point_modules@.contains(
                                #[trigger] self.module_dyn_deps(m)[j]) by {
                            if j > k {
                                assert(prev.split_point_modules@.contains(prev.module_dyn_deps(m)[j]));
                            }
                        }
                    }
                }
                continue ;
            } else {
                proof {
                    lemma_bounded_set_len_missing(
                        self.split_point_modules@,
                        self.num_modules(),
                        dyn_dep,
                    );
                    lemma_bounded_set_len(old_self.split_point_modules@, self.num_modules());
                }
                let ghost prev_s = self.split_point_modules@;
                self.split_point_modules.insert(dyn_dep);
                proof {
                    self.split_from@ = self.split_from@.insert(dyn_dep, item.chunk);
                }
                assert(self.split_point_modules@.remove(dyn_dep) =~= prev_s);
            }
            let ghost mid = *self;
            proof {
                assert(old_self.module_dyn_deps(m)[k as int] == dyn_dep);
                assert(!old_self.split_point_modules@.contains(dyn_dep));
                assert(old_self.needs_group(*item));
                assert(self.refs_ok(*item));
            }
            let name = self.compilation.module_graph.modules[dyn_dep].chunk_name.clone();
            let chunk = Compilation::add_named_chunk(
                name.clone(),
                name,
                &mut self.compilation.chunk_by_ukey,
                &mut self.compilation.named_chunks,
            );
            assert forall|c: int| 0 <= c < self.num_chunks() implies #[trigger] self.compilation.chunk_by_ukey@[c].ukey == c by {
                if c < mid.num_chunks() {
                    assert(mid.compilation.chunk_by_ukey@[c].ukey == c);
                    assert(self.compilation.chunk_by_ukey@.subrange(0, mid.num_chunks() as int)[c] == self.compilation.chunk_by_ukey@[c]);
                }
            }
            let ghost after_named = self.compilation.chunk_by_ukey@;
            let ghost named_cg = self.compilation.chunk_graph;
            self.compilation.chunk_graph.add_chunk(chunk);
            let ghost added_cg = self.compilation.chunk_graph;
            relation_add_edge(&mut self.chunk_relation_graph, chunk, item.chunk);
            self.compilation.chunk_graph.split_point_module_identifier_to_chunk_ukey.insert(
                dyn_dep,
                chunk,
            );
            let new_group = self.compilation.chunk_group_by_ukey.len();
            let mut chunk_group = ChunkGroup::new(new_group, ChunkGroupKind::Normal, None);
            assert(self.compilation.chunk_by_ukey@[chunk as int].ukey == chunk) by {
                if chunk < mid.num_chunks() {
                    assert(mid.compilation.chunk_by_ukey@[chunk as int].ukey == chunk);
                    assert(self.compilation.chunk_by_ukey@[chunk as int] == mid.compilation.chunk_by_ukey@[chunk as int]);
                }
            }
            self.compilation.chunk_group_by_ukey[item.chunk_group].children.insert(new_group);
            chunk_group.parents.insert(item.chunk_group);
            chunk_group.connect_chunk(&mut self.compilation.chunk_by_ukey[chunk]);
            assert(chunk_group.chunks@ =~= seq![chunk]);
            assert forall|c: int| 0 <= c < self.num_chunks() implies #[trigger] self.compilation.chunk_by_ukey@[c].ukey == c by {
                assert(after_named[c].ukey == c);
            }
            self.compilation.chunk_group_by_ukey.push(chunk_group);
            let ghost before_delayed = self.queue_delayed@;
            self.queue_delayed.push(
                QueueItem {
                    action: QueueAction::AddAndEnter,
                    chunk,
                    chunk_group: new_group,
                    module_identifier: dyn_dep,
                },
            );
            proof {
                assert(self.compilation.chunk_group_by_ukey@[new_group as int].parents@ =~= set![item.chunk_group]);
                assert(self.compilation.chunk_graph.split_points() =~= prev.compilation.chunk_graph.split_points().insert(dyn_dep, chunk));
                self.lemma_split_off_step(&prev, &old_self, *item, p, dyn_dep, chunk, new_group);
                assert forall|c: int| 0 <= c < prev.num_chunks() implies {
                    let nc = #[trigger] self.compilation.chunk_by_ukey@[c];
                    let pc = prev.compilation.chunk_by_ukey@[c];
                    &&& nc.ukey == pc.ukey
                    &&& nc.name == pc.name
                    &&& nc.id == pc.id
                    &&& nc.runtime == pc.runtime
                } by {
                    if prev.num_chunks() < after_named.len() {
                        assert(after_named.subrange(0, prev.num_chunks() as int)[c] == after_named[c]);
                    }
                    if c != chunk {
                        assert(self.compilation.chunk_by_ukey@[c] == after_named[c]);
                    }
                }
                assert(self.compilation.chunk_graph.chunk_graph_chunk_by_chunk_ukey == added_cg.chunk_graph_chunk_by_chunk_ukey);
                assert(named_cg == prev.compilation.chunk_graph);
                self.lemma_chunks_split_step(&prev, &old_self, p, dyn_dep, chunk);
                assert forall|kk: ChunkUkey| prev.num_chunks() <= kk < self.num_chunks() implies #[trigger] self.chunk_id_named(kk) by {
                    assert(kk == chunk);
                    assert(self.compilation.chunk_by_ukey@[kk as int].name == after_named[kk as int].name);
                    assert(self.compilation.chunk_by_ukey@[kk as int].id == after_named[kk as int].id);
                }
                self.lemma_id_named_carry(&prev, old_self.num_chunks());
                if old_self.law_chunk_ids() {
                    self.lemma_id_named_carry(&prev, 0);
                }
                assert forall|cc: ChunkUkey, mm: ModuleIdentifier| #[trigger] prev.chunk_has(cc, mm) implies self.chunk_has(cc, mm) by {
                    assert(prev.compilation.chunk_graph.has_chunk(cc));
                    assert(self.compilation.chunk_graph.chunk_graph_chunk_by_chunk_ukey@[cc] == prev.compilation.chunk_graph.chunk_graph_chunk_by_chunk_ukey@[cc]);
                }
                if old_self.law_links() && old_self.chunk_has(item.chunk, m) {
                    assert(prev.module_dyn_deps(m)[k as int] == dyn_dep);
                    self.lemma_links_split(&prev, *item, dyn_dep, chunk, new_group);
                }
                if old_self.law_names() {
                    assert(prev.module_dyn_deps(m)[k as int] == dyn_dep);
                    self.lemma_names_split(&prev, *item, dyn_dep, chunk);
                }
                self.lemma_split_step(&mid, &old_self, *item, dyn_dep, chunk, new_group, before_delayed);
                assert(entries_frame(&prev.compilation, &self.compilation)) by {
                    let cg = self.compilation.chunk_graph;
                    let pcg = prev.compilation.chunk_graph;
                    assert forall|n: Seq<char>| #[trigger] prev.compilation.named_chunks@.contains_key(n) implies
                        self.compilation.named_chunks@.contains_key(n)
                        && self.compilation.named_chunks@[n] == prev.compilation.named_chunks@[n] by {
                    }
                    assert forall|g: int| 0 <= g < prev.compilation.num_groups() implies (#[trigger] self.compilation.chunk_group_by_ukey@[g]).kind
                        == prev.compilation.chunk_group_by_ukey@[g].kind && self.compilation.chunk_group_by_ukey@[g].entry_point_chunk
                        == prev.compilation.chunk_group_by_ukey@[g].entry_point_chunk by {
                        if g != item.chunk_group {
                            assert(self.compilation.chunk_group_by_ukey@[g] == mid.compilation.chunk_group_by_ukey@[g]);
                        }
                    }
                    assert forall|c: ChunkUkey| #[trigger] pcg.has_chunk(c) implies cg.has_chunk(c)
                        && cg.entry_modules(c) == pcg.entry_modules(c) by {
                    }
                    assert forall|c: ChunkUkey| #[trigger] cg.has_chunk(c) && !pcg.has_chunk(c) implies cg.entry_modules(c)
                        == Map::<ModuleIdentifier, ChunkGroupUkey>::empty() by {
                    }
                }
                lemma_entries_frame_trans(&old_self.compilation, &prev.compilation, &self.compilation);
                if old_self.law_before_process(item.chunk, m) {
                    let cg = self.compilation.chunk_graph;
                    let pcg = prev.compilation.chunk_graph;
                    assert(prev.module_dyn_deps(m)[k as int] == dyn_dep);
                    assert(prev.module_dyn_deps(m).contains(dyn_dep));
                    assert(prev.compilation.wf());
                    assert forall|c: int| 0 <= c < prev.num_chunks() implies (#[trigger] self.compilation.chunk_by_ukey@[c]).runtime
                        == prev.compilation.chunk_by_ukey@[c].runtime by {
                        if mid.num_chunks() < after_named.len() {
                            assert(after_named.subrange(0, prev.num_chunks() as int)[c] == after_named[c]);
                        }
                    }
                    assert forall|h: ChunkGroupUkey| h < prev.compilation.num_groups() implies {
                        &&& (#[trigger] self.group(h)).module_pre_order_indices == prev.group(h).module_pre_order_indices
                        &&& self.group(h).module_post_order_indices == prev.group(h).module_post_order_indices
                        &&& self.group(h).next_pre_order_index == prev.group(h).next_pre_order_index
                        &&& self.group(h).next_post_order_index == prev.group(h).next_post_order_index
                    } by {
                        if h != item.chunk_group {
                            assert(self.compilation.chunk_group_by_ukey@[h as int] == mid.compilation.chunk_group_by_ukey@[h as int]);
                        }
                    }
                    assert forall|c: ChunkUkey| #[trigger] pcg.has_chunk(c) implies cg.has_chunk(c)
                        && cg.entry_modules(c) == pcg.entry_modules(c) && cg.chunk_modules(c) == pcg.chunk_modules(c) by {
                    }
                    assert forall|c: ChunkUkey| #[trigger] cg.has_chunk(c) && !pcg.has_chunk(c) implies c == chunk
                        && cg.entry_modules(c) == Map::<ModuleIdentifier, ChunkGroupUkey>::empty()
                        && cg.chunk_modules(c) == Set::<ModuleIdentifier>::empty() by {
                    }
                    assert forall|c: ChunkUkey| #[trigger] pcg.has_chunk(c) implies c < prev.num_chunks() by {
                    }
                    assert(self.split_step(&prev, item.chunk, m, dyn_dep, chunk, new_group));
                    self.lemma_split_law(&prev, item.chunk, m, dyn_dep, chunk, new_group, k as int);
                }
            }
        }
        proof {
            if old_self.law_chunk_ids() {
                assert(self.law_chunk_ids()) by {
                    self.lemma_id_named_carry(&old_self, 0);
                }
            }
            if old_self.law_indexed() {
                let f = fresh_splits(old_self.module_dyn_deps(m), old_self.split_point_modules@, num_dyn as nat);
                assert(self.chunks_split(&old_self, f));
                assert forall|cc: ChunkUkey, mm: ModuleIdentifier| #[trigger] old_self.chunk_has(cc, mm) implies self.chunk_has(cc, mm) by {
                    assert(old_self.compilation.chunk_graph.has_chunk(cc));
                }
                self.lemma_indexed_frame(&old_self);
            }
            assert forall|i: int| 0 <= i < old_self.queue_delayed@.len() implies #[trigger] self.queue_delayed@[i] == old_self.queue_delayed@[i] by {
                let f = fresh_splits(old_self.module_dyn_deps(m), old_self.split_point_modules@, num_dyn as nat);
                assert(self.queue_delayed@ == old_self.queue_delayed@ + self.split_items(&old_self, f));
            }
        }
    }

    /// The bookkeeping of one new split point keeps the invariant.
    proof fn lemma_split_step(
        &self,
        mid: &CodeSplitter,
        start: &CodeSplitter,
        item: QueueItem,
        dyn_dep: ModuleIdentifier,
        chunk: ChunkUkey,
        new_group: ChunkGroupUkey,
        before_delayed: Seq<QueueItem>,
    )
        requires
            ({
                let prev_s = mid.split_point_modules@.remove(dyn_dep);
                &&& mid.split_point_modules@.contains(dyn_dep)
                &&& dyn_dep < mid.num_modules()
                &&& prev_s.len() + 1 == mid.split_point_modules@.len()
                &&& start.split_point_modules@.len() <= prev_s.len()
            }),
            mid.compilation.wf(),
            forall|i: int| 0 <= i < mid.queue.len() ==> mid.item_ok(#[trigger] mid.queue@[i]),
            forall|i: int|
                0 <= i < mid.queue_delayed.len() ==> mid.item_ok(#[trigger] mid.queue_delayed@[i]),
            forall|x: ModuleIdentifier| #[trigger]
                mid.split_point_modules@.contains(x) ==> x < mid.num_modules(),
            mid.next_free_module_pre_order_index <= mid.pre_numbered().len(),
            mid.next_free_module_post_order_index <= mid.post_numbered().len(),
            mid.refs_ok(item),
            Self::extends(mid, start),
            new_group == mid.compilation.num_groups(),
            // what the step did
            self.compilation.module_graph == mid.compilation.module_graph,
            self.compilation.entries == mid.compilation.entries,
            self.split_point_modules == mid.split_point_modules,
            self.queue == mid.queue,
            self.queue_delayed@ == before_delayed.push(
                QueueItem {
                    action: QueueAction::AddAndEnter,
                    chunk,
                    chunk_group: new_group,
                    module_identifier: dyn_dep,
                },
            ),
            before_delayed == mid.queue_delayed@,
            self.next_free_module_pre_order_index == mid.next_free_module_pre_order_index,
            self.next_free_module_post_order_index == mid.next_free_module_post_order_index,
            chunk < self.num_chunks(),
            self.num_chunks() == mid.num_chunks() || (self.num_chunks() == mid.num_chunks() + 1
                && chunk == mid.num_chunks()),
            forall|c: int|
                0 <= c < mid.num_chunks() ==> #[trigger] self.compilation.chunk_by_ukey@[c].ukey
                    == mid.compilation.chunk_by_ukey@[c].ukey,
            forall|c: int| 0 <= c < self.num_chunks() ==> #[trigger] self.compilation.chunk_by_ukey@[c].ukey == c,
            self.compilation.num_groups() == mid.compilation.num_groups() + 1,
            forall|g: int|
                0 <= g < mid.compilation.num_groups() && g != item.chunk_group
                    ==> #[trigger] self.compilation.chunk_group_by_ukey@[g]
                    == mid.compilation.chunk_group_by_ukey@[g],
            self.compilation.chunk_group_by_ukey@[item.chunk_group as int].same_except_chunks_children(
                mid.compilation.chunk_group_by_ukey@[item.chunk_group as int],
            ),
            ({
                let ng = self.compilation.chunk_group_by_ukey@[new_group as int];
                &&& ng.ukey == new_group
                &&& ng.kind == ChunkGroupKind::Normal
                &&& ng.chunks@ == seq![chunk]
                &&& ng.module_pre_order_indices@ == Map::<ModuleIdentifier, usize>::empty()
                &&& ng.module_post_order_indices@ == Map::<ModuleIdentifier, usize>::empty()
                &&& ng.next_pre_order_index == 0
                &&& ng.next_post_order_index == 0
                &&& ng.entry_point_chunk is None
                &&& ng.runtime_chunk is None
            }),
            forall|n: Seq<char>| #[trigger]
                self.compilation.named_chunks@.contains_key(n) ==> self.compilation.named_chunks@[n]
                    < self.num_chunks(),
            self.compilation.named_chunk_groups == mid.compilation.named_chunk_groups,
            self.compilation.entrypoints == mid.compilation.entrypoints,
            self.compilation.chunk_graph.chunk_graph_module_by_module_identifier
                == mid.compilation.chunk_graph.chunk_graph_module_by_module_identifier,
            self.compilation.chunk_graph.chunk_graph_chunk_by_chunk_ukey@ == (if mid.compilation.chunk_graph.has_chunk(chunk) {
                mid.compilation.chunk_graph.chunk_graph_chunk_by_chunk_ukey@
            } else {
                mid.compilation.chunk_graph.chunk_graph_chunk_by_chunk_ukey@.insert(
                    chunk,
                    self.compilation.chunk_graph.chunk_graph_chunk_by_chunk_ukey@[chunk],
                )
            }),
            !mid.compilation.chunk_graph.has_chunk(chunk) ==> self.compilation.chunk_graph.chunk_modules(chunk)
                == Set::<ModuleIdentifier>::empty() && self.compilation.chunk_graph.entry_modules(chunk)
                == Map::<ModuleIdentifier, ChunkGroupUkey>::empty(),
            self.compilation.chunk_graph.split_points() == mid.compilation.chunk_graph.split_points().insert(dyn_dep, chunk),
        ensures
            self.inv(),
            self.refs_ok(item),
            Self::extends(self, start),
            Self::no_regress(start, self),
    {
        let c = self.compilation;
        let mc = mid.compilation;
        lemma_bounded_set_len(mid.split_point_modules@, mid.num_modules());
        assert(c.module_graph.wf());
        assert forall|g: int| 0 <= g < c.num_groups() implies #[trigger] c.chunk_group_by_ukey@[g].ukey == g by {
            if g < mc.num_groups() {
                assert(mc.chunk_group_by_ukey@[g].ukey == g);
            }
        }
        assert forall|g: int| 0 <= g < c.num_groups() implies c.group_wf(#[trigger] c.chunk_group_by_ukey@[g]) by {
            if g < mc.num_groups() {
                assert(mc.group_wf(mc.chunk_group_by_ukey@[g]));
                let og = mc.chunk_group_by_ukey@[g];
                let ng = c.chunk_group_by_ukey@[g];
                assert forall|i: int| 0 <= i < ng.chunks.len() implies #[trigger] ng.chunks@[i] < c.num_chunks() by {
                    assert(og.chunks@[i] < mc.num_chunks());
                }
            } else {
                let ng = c.chunk_group_by_ukey@[g];
                assert(ng.chunks@[0] == chunk);
                assert(ng.module_pre_order_indices@.dom() =~= Set::empty());
                assert(ng.module_post_order_indices@.dom() =~= Set::empty());
                assert(mc.num_modules() <= usize::MAX);
            }
        }
        let cg = c.chunk_graph;
        let mcg = mc.chunk_graph;
        assert(mcg.wf(mc.num_chunks(), mc.num_modules(), mc.num_groups()));
        assert forall|x: ChunkUkey| #[trigger] cg.has_chunk(x) implies x < c.num_chunks() by {
            if mcg.has_chunk(x) {
            }
        }
        assert forall|x: ChunkUkey, y: ModuleIdentifier|
            cg.has_chunk(x) && #[trigger] cg.chunk_modules(x).contains(y) implies cg.has_module(y) && cg.module_chunks(y).contains(x) by {
            if x != chunk || mcg.has_chunk(chunk) {
                assert(mcg.has_chunk(x));
                assert(mcg.chunk_modules(x).contains(y));
            }
        }
        assert forall|x: ChunkUkey, y: ModuleIdentifier|
            cg.has_module(y) && #[trigger] cg.module_chunks(y).contains(x) implies cg.has_chunk(x) && cg.chunk_modules(x).contains(y) by {
            assert(mcg.has_module(y));
            assert(mcg.module_chunks(y).contains(x));
            assert(mcg.has_chunk(x) && mcg.chunk_modules(x).contains(y));
        }
        assert forall|x: ChunkUkey, y: ModuleIdentifier|
            cg.has_chunk(x) && #[trigger] cg.entry_modules(x).contains_key(y) implies cg.has_module(y) && cg.entry_modules(x)[y] < c.num_groups() by {
            if x != chunk || mcg.has_chunk(chunk) {
                assert(mcg.has_chunk(x));
                assert(mcg.entry_modules(x).contains_key(y));
            }
        }
        assert forall|y: ModuleIdentifier, x: ChunkUkey|
            cg.has_module(y) && #[trigger] cg.module_entry_chunks(y).contains(x) implies x < c.num_chunks() by {
            assert(mcg.module_entry_chunks(y).contains(x));
        }
        assert forall|y: ModuleIdentifier| #[trigger] cg.split_points().contains_key(y) implies y < c.num_modules() && cg.split_points()[y] < c.num_chunks() by {
            if y != dyn_dep {
                assert(mcg.split_points().contains_key(y));
            }
        }
        assert(forall|x: ChunkUkey| #[trigger] cg.has_chunk(x) ==> x < c.num_chunks());
        assert forall|y: ModuleIdentifier| #[trigger] cg.has_module(y) implies y < c.num_modules() by {
            assert(mcg.has_module(y));
        }
        assert(cg.wf(c.num_chunks(), c.num_modules(), c.num_groups()));
        assert forall|x: ChunkUkey| x < c.num_chunks() implies #[trigger] cg.has_chunk(x) by {
            if x < mc.num_chunks() {
                assert(mcg.has_chunk(x));
            }
        }
        assert(c.wf());
        assert(Self::extends(self, mid)) by {
            assert forall|g: int, x: ModuleIdentifier|
                0 <= g < mc.num_groups()
                    && #[trigger] mc.chunk_group_by_ukey@[g].module_pre_order_indices@.contains_key(x)
                implies c.chunk_group_by_ukey@[g].module_pre_order_indices@.contains_key(x) by {
            }
        }
        Self::lemma_items_carry_over(self, mid, mid.queue@);
        Self::lemma_items_carry_over(self, mid, mid.queue_delayed@);
        assert forall|i: int| 0 <= i < self.queue_delayed.len() implies self.item_ok(#[trigger] self.queue_delayed@[i]) by {
            if i < before_delayed.len() {
                assert(self.queue_delayed@[i] == before_delayed[i]);
            }
        }
        assert(self.pre_numbered() =~= mid.pre_numbered());
        assert(self.post_numbered() =~= mid.post_numbered());
        lemma_total_connections_bound(cg, c.num_chunks(), c.num_modules());
        assert(Self::extends(self, start));
    }

    /// Gives the module of `item` its pre-order indices where it has none yet, queues
    /// leaving it, and processes it.
    fn enter_module(&mut self, item: &QueueItem)
        requires
            old(self).inv(),
            old(self).refs_ok(*item),
        ensures
            final(self).inv(),
            Self::no_regress(old(self), final(self)),
            Self::extends(final(self), old(self)),
            final(self).enter_effect(old(self), *item, old(self).queue@),
            old(self).law_links() && old(self).chunk_has(item.chunk, item.module_identifier) ==> final(self).law_links(),
            old(self).law_counts() ==> final(self).law_counts(),
            old(self).law_names() ==> final(self).law_names(),
            old(self).law_indexed() && old(self).chunk_has(item.chunk, item.module_identifier) ==> final(self).law_indexed(),
            old(self).law_chunk_ids() ==> final(self).law_chunk_ids(),
            final(self).delayed_grew(old(self)),
            old(self).law_before_enter(item.chunk, item.module_identifier) ==> final(self).law(None),
            entries_frame(&old(self).compilation, &final(self).compilation),
    {
        let g = item.chunk_group;
        let m = item.module_identifier;
        let ghost old_self = *self;
        proof {
            let group = self.compilation.chunk_group_by_ukey@[g as int];
            assert(self.compilation.group_wf(group));
        }
        if self.compilation.chunk_group_by_ukey[g].module_pre_order_indices.get(&m).is_none() {
            proof {
                let group = self.compilation.chunk_group_by_ukey@[g as int];
                lemma_bounded_set_len_missing(
                    group.module_pre_order_indices@.dom(),
                    self.num_modules(),
                    m,
                );
            }
            let index = self.compilation.chunk_group_by_ukey[g].next_pre_order_index;
            self.compilation.chunk_group_by_ukey[g].module_pre_order_indices.insert(m, index);
            self.compilation.chunk_group_by_ukey[g].next_pre_order_index = index + 1;
        }
        if self.compilation.module_graph.modules[m].pre_order_index.is_none() {
            proof {
                lemma_bounded_set_len_missing(self.pre_numbered(), self.num_modules(), m);
            }
            self.compilation.module_graph.modules[m].pre_order_index = Some(
                self.next_free_module_pre_order_index,
            );
            self.next_free_module_pre_order_index = self.next_free_module_pre_order_index + 1;
            proof {
                assert(self.pre_numbered() =~= old_self.pre_numbered().insert(m));
                lemma_bounded_set_len(old_self.pre_numbered(), self.num_modules());
            }
        }
        let ghost before = self.queue@;
        self.queue.push(
            QueueItem {
                action: QueueAction::Leave,
                chunk_group: item.chunk_group,
                chunk: item.chunk,
                module_identifier: item.module_identifier,
            },
        );
        proof {
            assert(self.post_numbered() =~= old_self.post_numbered());
            assert(self.pre_numbered().len() >= old_self.pre_numbered().len()) by {
                lemma_bounded_set_len(old_self.pre_numbered(), self.num_modules());
                if self.pre_numbered() != old_self.pre_numbered() {
                    assert(self.pre_numbered() =~= old_self.pre_numbered().insert(m));
                }
            }
            lemma_total_connections_frame(
                self.compilation.chunk_graph,
                old_self.compilation.chunk_graph,
                self.num_chunks(),
            );
            assert forall|h: int| 0 <= h < self.compilation.num_groups() implies self.compilation.group_wf(
                #[trigger] self.compilation.chunk_group_by_ukey@[h],
            ) by {
                assert(old_self.compilation.group_wf(old_self.compilation.chunk_group_by_ukey@[h]));
                if h == g {
                    let og = old_self.compilation.chunk_group_by_ukey@[h];
                    let ng = self.compilation.chunk_group_by_ukey@[h];
                    if !og.module_pre_order_indices@.contains_key(m) {
                        assert(ng.module_pre_order_indices@.dom() =~= og.module_pre_order_indices@.dom().insert(m));
                    }
                }
            }
            assert(Self::extends(self, &old_self));
            Self::lemma_items_carry_over(self, &old_self, old_self.queue@);
            Self::lemma_items_carry_over(self, &old_self, old_self.queue_delayed@);
            assert forall|i: int| 0 <= i < self.queue.len() implies self.item_ok(
                #[trigger] self.queue@[i],
            ) by {
                if i < before.len() {
                    assert(self.queue@[i] == before[i]);
                }
            }
            assert forall|i: int| 0 <= i < self.queue_delayed.len() implies self.item_ok(
                #[trigger] self.queue_delayed@[i],
            ) by {
                assert(self.queue_delayed@[i] == old_self.queue_delayed@[i]);
            }
        }
        let ghost mid = *self;
        proof {
            assert(mid.entered(&old_self, *item, old_self.queue@)) by {
                assert forall|mm: int| 0 <= mm < old_self.num_modules() implies same_module_but_orders(
                    old_self.compilation.module_graph.modules@[mm],
                    #[trigger] self.compilation.module_graph.modules@[mm],
                ) by {}
                assert forall|h: int| 0 <= h < old_self.compilation.num_groups() implies same_group_but_orders(
                    old_self.compilation.chunk_group_by_ukey@[h],
                    #[trigger] self.compilation.chunk_group_by_ukey@[h],
                ) by {}
                let og = old_self.group(g);
                assert(self.group(g).module_pre_order_indices@ =~= numbered(
                    og.module_pre_order_indices@,
                    m,
                    og.next_pre_order_index,
                ));
                assert(self.queue@ =~= old_self.queue@.push(leave_item(*item)));
            }
            if old_self.law_links() {
                self.lemma_links_frame(&old_self);
            }
            if old_self.law_names() {
                self.lemma_names_frame(&old_self);
            }
            if old_self.law_chunk_ids() {
                assert(self.law_chunk_ids()) by {
                    self.lemma_id_named_carry(&old_self, 0);
                }
            }
            if old_self.law_indexed() && old_self.chunk_has(item.chunk, item.module_identifier) {
                assert(self.chunk_has(item.chunk, item.module_identifier));
                self.lemma_indexed_frame(&old_self);
            }
            assert(post_indexed(&self.compilation) =~= post_indexed(&old_self.compilation));
            if old_self.module_pre(m) is None {
                assert(pre_indexed(&self.compilation) =~= pre_indexed(&old_self.compilation).insert(m));
                lemma_bounded_set_len(old_self.pre_numbered(), self.num_modules());
                assert(pre_indexed(&old_self.compilation) =~= old_self.pre_numbered());
            } else {
                assert(pre_indexed(&self.compilation) =~= pre_indexed(&old_self.compilation));
            }
            if old_self.law_before_enter(item.chunk, item.module_identifier) {
                assert(self.enter_step(&old_self, *item));
                self.lemma_enter_law(&old_self, *item);
            }
            assert(entries_frame(&old_self.compilation, &self.compilation)) by {
                assert forall|h: int| 0 <= h < old_self.compilation.num_groups() implies (#[trigger] self.compilation.chunk_group_by_ukey@[h]).kind
                    == old_self.compilation.chunk_group_by_ukey@[h].kind && self.compilation.chunk_group_by_ukey@[h].entry_point_chunk
                    == old_self.compilation.chunk_group_by_ukey@[h].entry_point_chunk by {
                }
            }
        }
        self.process_module(item);
        proof {
            lemma_entries_frame_trans(&old_self.compilation, &mid.compilation, &self.compilation);
            assert(self.enter_effect(&old_self, *item, old_self.queue@));
            assert(pre_indexed(&self.compilation) =~= pre_indexed(&mid.compilation));
            assert(post_indexed(&self.compilation) =~= post_indexed(&mid.compilation));
            assert(self.delayed_grew(&old_self)) by {
                assert forall|i: int| 0 <= i < old_self.queue_delayed@.len() implies #[trigger] self.queue_delayed@[i] == old_self.queue_delayed@[i] by {
                    assert(self.queue_delayed@[i] == mid.queue_delayed@[i]);
                }
            }
        }
        proof {
            assert forall|mm: int|
                0 <= mm < old_self.num_modules() && (
                #[trigger] old_self.compilation.module_graph.modules@[mm]).pre_order_index is Some
                implies self.compilation.module_graph.modules@[mm].pre_order_index is Some by {
                assert(mid.compilation.module_graph.modules@[mm].pre_order_index is Some);
            }
            assert forall|h: int, x: ModuleIdentifier|
                0 <= h < old_self.compilation.num_groups()
                    && #[trigger] old_self.compilation.chunk_group_by_ukey@[h].module_pre_order_indices@.contains_key(x)
                implies self.compilation.chunk_group_by_ukey@[h].module_pre_order_indices@.contains_key(x) by {
                assert(mid.compilation.chunk_group_by_ukey@[h].module_pre_order_indices@.contains_key(x));
            }
        }
    }

    /// Puts the module of `item` into its chunk and enters it, unless the chunk has it already.
    fn add_and_enter_module(&mut self, item: &QueueItem)
        requires
            old(self).inv(),
            old(self).refs_ok(*item),
        ensures
            final(self).inv(),
            *final(self) == *old(self) || Self::progressed(old(self), final(self)),
            final(self).add_effect(old(self), *item, old(self).queue@),
            old(self).law_links() ==> final(self).law_links(),
            old(self).law_counts() ==> final(self).law_counts(),
            old(self).law_names() ==> final(self).law_names(),
            old(self).law_indexed() ==> final(self).law_indexed(),
            old(self).law_chunk_ids() ==> final(self).law_chunk_ids(),
            final(self).delayed_grew(old(self)),
            old(self).law(Some(*item)) && item.action == QueueAction::AddAndEnter ==> final(self).law(None),
            entries_frame(&old(self).compilation, &final(self).compilation),
    {
        let m = item.module_identifier;
        let c = item.chunk;
        proof {
            assert(self.compilation.chunk_graph.has_chunk(c));
        }
        if self.compilation.chunk_graph.is_module_in_chunk(&m, c) {
            proof {
                if self.law(Some(*item)) && item.action == QueueAction::AddAndEnter {
                    self.lemma_drop_added(*item);
                }
                lemma_entries_frame_refl(&self.compilation);
            }
            return ;
        }
        let ghost old_self = *self;
        self.compilation.chunk_graph.add_module(m);
        let ghost mid1 = self.compilation.chunk_graph;
        self.compilation.chunk_graph.connect_chunk_and_module(c, m);
        proof {
            let ocg = old_self.compilation.chunk_graph;
            let cg = self.compilation.chunk_graph;
            let n = self.num_chunks();
            let mm = self.num_modules();
            assert(ocg.wf(n, mm, self.compilation.num_groups()));
            assert forall|x: ChunkUkey| #[trigger] cg.has_chunk(x) implies x < n by {
                assert(ocg.has_chunk(x));
            }
            assert forall|y: ModuleIdentifier| #[trigger] cg.has_module(y) implies y < mm by {
                assert(mid1.has_module(y));
                if y != m {
                    assert(ocg.has_module(y));
                }
            }
            assert forall|x: ChunkUkey, y: ModuleIdentifier|
                cg.has_chunk(x) && #[trigger] cg.chunk_modules(x).contains(y) implies cg.has_module(y) && cg.module_chunks(y).contains(x) by {
                assert(mid1.has_chunk(x));
                if !(x == c && y == m) {
                    assert(ocg.chunk_modules(x).contains(y));
                    assert(ocg.has_module(y));
                    assert(mid1.module_chunks(y) == ocg.module_chunks(y));
                }
            }
            assert forall|x: ChunkUkey, y: ModuleIdentifier|
                cg.has_module(y) && #[trigger] cg.module_chunks(y).contains(x) implies cg.has_chunk(x) && cg.chunk_modules(x).contains(y) by {
                assert(mid1.has_module(y));
                if !(x == c && y == m) {
                    if y == m && !ocg.has_module(m) {
                        assert(mid1.module_chunks(y) == Set::<ChunkUkey>::empty());
                    } else {
                        assert(ocg.has_module(y));
                        assert(mid1.module_chunks(y) == ocg.module_chunks(y));
                        assert(ocg.module_chunks(y).contains(x));
                    }
                    assert(ocg.has_chunk(x));
                }
            }
            assert forall|x: ChunkUkey, y: ModuleIdentifier|
                cg.has_chunk(x) && #[trigger] cg.entry_modules(x).contains_key(y) implies cg.has_module(y) && cg.entry_modules(x)[y] < self.compilation.num_groups() by {
                assert(mid1.has_chunk(x));
                assert(ocg.entry_modules(x).contains_key(y));
                assert(ocg.has_module(y));
            }
            assert forall|y: ModuleIdentifier, x: ChunkUkey|
                cg.has_module(y) && #[trigger] cg.module_entry_chunks(y).contains(x) implies x < n by {
                assert(mid1.has_module(y));
                if y == m && !ocg.has_module(m) {
                    assert(mid1.module_entry_chunks(y) == Set::<ChunkUkey>::empty());
                } else {
                    assert(ocg.has_module(y));
                    assert(mid1.module_entry_chunks(y) == ocg.module_entry_chunks(y));
                }
            }
            assert forall|y: ModuleIdentifier| #[trigger] cg.split_points().contains_key(y) implies y < mm && cg.split_points()[y] < n by {
                assert(ocg.split_points().contains_key(y));
            }
            assert(cg.wf(n, mm, self.compilation.num_groups()));
            assert forall|x: ChunkUkey| x < n implies #[trigger] cg.has_chunk(x) by {
                assert(ocg.has_chunk(x));
            }
            assert(self.compilation.wf());
            lemma_bounded_set_len(ocg.chunk_modules(c), mm);
            lemma_total_connections_insert(ocg, cg, n, c, m);
            lemma_total_connections_bound(cg, n, mm);
            assert(Self::extends(self, &old_self));
            Self::lemma_items_carry_over(self, &old_self, old_self.queue@);
            Self::lemma_items_carry_over(self, &old_self, old_self.queue_delayed@);
            assert(self.pre_numbered() =~= old_self.pre_numbered());
            assert(self.post_numbered() =~= old_self.post_numbered());
            assert(self.inv());
            assert(Self::progressed(&old_self, self));
        }
        proof {
            if old_self.law(Some(*item)) && item.action == QueueAction::AddAndEnter {
                assert(self.add_step(&old_self, *item));
                self.lemma_add_law(&old_self, *item);
            }
            assert(entries_frame(&old_self.compilation, &self.compilation)) by {
                let cg = self.compilation.chunk_graph;
                let ocg = old_self.compilation.chunk_graph;
                assert forall|x: ChunkUkey| #[trigger] ocg.has_chunk(x) implies cg.has_chunk(x) && cg.entry_modules(x) == ocg.entry_modules(x) by {
                    assert(mid1.entry_modules(x) == ocg.entry_modules(x));
                }
            }
        }
        let ghost before_enter = *self;
        proof {
            let cg = self.compilation.chunk_graph;
            let ocg = old_self.compilation.chunk_graph;
            assert(cg.chunk_graph_module_by_module_identifier@.dom() =~= ocg.chunk_graph_module_by_module_identifier@.dom().insert(m));
            assert(cg.module_chunks(m) =~= (if ocg.has_module(m) {
                ocg.module_chunks(m)
            } else {
                Set::<ChunkUkey>::empty()
            }).insert(c));
            assert(before_enter.connected(&old_self, *item));
            if old_self.law_links() {
                assert forall|cc: ChunkUkey, mm: ModuleIdentifier| #[trigger] old_self.chunk_has(cc, mm) implies self.chunk_has(cc, mm) by {
                    assert(self.compilation.chunk_graph.chunk_modules(cc) == if cc == c {
                        old_self.compilation.chunk_graph.chunk_modules(cc).insert(m)
                    } else {
                        old_self.compilation.chunk_graph.chunk_modules(cc)
                    });
                }
                self.lemma_links_frame(&old_self);
            }
            assert(self.chunk_has(c, m));
            if old_self.law_names() {
                self.lemma_names_frame(&old_self);
            }
            if old_self.law_chunk_ids() {
                assert(self.law_chunk_ids()) by {
                    self.lemma_id_named_carry(&old_self, 0);
                }
            }
            if old_self.law_indexed() {
                assert forall|cc: ChunkUkey, mm: ModuleIdentifier| #[trigger] old_self.chunk_has(cc, mm) implies self.chunk_has(cc, mm) by {
                    assert(self.compilation.chunk_graph.chunk_modules(cc) == if cc == c {
                        old_self.compilation.chunk_graph.chunk_modules(cc).insert(m)
                    } else {
                        old_self.compilation.chunk_graph.chunk_modules(cc)
                    });
                }
                self.lemma_indexed_frame(&old_self);
            }
            assert(pre_indexed(&self.compilation) =~= pre_indexed(&old_self.compilation));
            assert(post_indexed(&self.compilation) =~= post_indexed(&old_self.compilation));
        }
        self.enter_module(item);
        proof {
            lemma_entries_frame_trans(&old_self.compilation, &before_enter.compilation, &self.compilation);
            assert(self.add_effect(&old_self, *item, old_self.queue@));
            assert(self.delayed_grew(&old_self)) by {
                assert forall|i: int| 0 <= i < old_self.queue_delayed@.len() implies #[trigger] self.queue_delayed@[i] == old_self.queue_delayed@[i] by {
                    assert(self.queue_delayed@[i] == before_enter.queue_delayed@[i]);
                }
            }
        }
    }

    /// The number of queued items, now and delayed.
    pub open spec fn total_queued(&self) -> nat {
        (self.queue.len() + self.queue_delayed.len()) as nat
    }

    /// Works off the queue, last item first, until it is empty.
    fn process_queue(&mut self)
        requires
            old(self).inv(),
        ensures
            final(self).inv(),
            final(self).queue@.len() == 0,
            Self::progressed(old(self), final(self)) || {
                &&& final(self).measure_splits() == old(self).measure_splits()
                &&& final(self).measure_connections() == old(self).measure_connections()
                &&& final(self).queue_delayed == old(self).queue_delayed
            },
            old(self).law(None) ==> final(self).law(None),
            old(self).law_links() ==> final(self).law_links(),
            old(self).law_counts() ==> final(self).law_counts(),
            old(self).law_names() ==> final(self).law_names(),
            old(self).law_indexed() ==> final(self).law_indexed(),
            old(self).law_chunk_ids() ==> final(self).law_chunk_ids(),
            entries_frame(&old(self).compilation, &final(self).compilation),
            final(self).delayed_grew(old(self)),
            exists|trace: Seq<CodeSplitter>|
                Self::is_run(trace) && trace[0] == *old(self) && #[trigger] trace.last() == *final(self),
    {
        let ghost start = *self;
        let ghost mut trace: Seq<CodeSplitter> = seq![*self];
        proof {
            lemma_entries_frame_refl(&self.compilation);
        }
        loop
            invariant
                Self::is_run(trace),
                trace[0] == start,
                trace.last() == *self,
                self.delayed_grew(&start),
                self.inv(),
                start.inv(),
                start.law(None) ==> self.law(None),
                start.law_links() ==> self.law_links(),
                start.law_counts() ==> self.law_counts(),
                start.law_names() ==> self.law_names(),
                start.law_indexed() ==> self.law_indexed(),
                start.law_chunk_ids() ==> self.law_chunk_ids(),
                entries_frame(&start.compilation, &self.compilation),
                Self::progressed(&start, self) || {
                    &&& self.measure_splits() == start.measure_splits()
                    &&& self.measure_connections() == start.measure_connections()
                    &&& self.queue_delayed == start.queue_delayed
                },
            ensures
                Self::is_run(trace),
                trace[0] == start,
                trace.last() == *self,
                self.delayed_grew(&start),
                self.inv(),
                self.queue@.len() == 0,
                start.law(None) ==> self.law(None),
                start.law_links() ==> self.law_links(),
                start.law_links() ==> self.law_links(),
                start.law_counts() ==> self.law_counts(),
                start.law_names() ==> self.law_names(),
                start.law_indexed() ==> self.law_indexed(),
                start.law_chunk_ids() ==> self.law_chunk_ids(),
                entries_frame(&start.compilation, &self.compilation),
                Self::progressed(&start, self) || {
                    &&& self.measure_splits() == start.measure_splits()
                    &&& self.measure_connections() == start.measure_connections()
                    &&& self.queue_delayed == start.queue_delayed
                },
            decreases self.measure_splits(), self.measure_connections(), self.queue@.len(),
        {
            let ghost before = *self;
            if self.queue.len() == 0 {
                break ;
            }
            match self.queue.pop() {
                Some(queue_item) => {
                    proof {
                        assert(before.item_ok(before.queue@[before.queue@.len() - 1]));
                        assert forall|i: int| 0 <= i < self.queue.len() implies self.item_ok(
                            #[trigger] self.queue@[i],
                        ) by {
                            assert(before.item_ok(before.queue@[i]));
                        }
                        if start.law(None) {
                            self.lemma_pop_law(&before, queue_item);
                        }
                        if start.law_links() {
                            self.lemma_links_frame(&before);
                        }
                        if start.law_names() {
                            self.lemma_names_frame(&before);
                        }
                        if start.law_indexed() {
                            self.lemma_indexed_frame(&before);
                        }
                        if start.law_chunk_ids() {
                            self.lemma_id_named_carry(&before, 0);
                        }
                        assert(pre_indexed(&self.compilation) =~= pre_indexed(&before.compilation));
                        assert(post_indexed(&self.compilation) =~= post_indexed(&before.compilation));
                    }
                    let ghost popped = *self;
                    match queue_item.action {
                        QueueAction::AddAndEnter => self.add_and_enter_module(&queue_item),
                        QueueAction::_Enter => self.enter_module(&queue_item),
                        QueueAction::_ProcessModule => self.process_module(&queue_item),
                        QueueAction::Leave => self.leave_module(&queue_item),
                    }
                    proof {
                        lemma_entries_frame_trans(&start.compilation, &popped.compilation, &self.compilation);
                        assert(popped.queue@ == before.queue@.drop_last());
                        assert(queue_item == before.queue@.last());
                        assert(self.item_effect(&popped, queue_item, popped.queue@));
                        self.lemma_effect_ignores_queue(&popped, &before, queue_item, popped.queue@);
                        let t2 = trace.push(*self);
                        assert(Self::step_at(t2, t2.len() - 2));
                        assert forall|i: int| 0 <= i < t2.len() - 1 implies #[trigger] Self::step_at(t2, i) by {
                            if i < trace.len() - 1 {
                                assert(Self::step_at(trace, i));
                                assert(t2[i] == trace[i] && t2[i + 1] == trace[i + 1]);
                            }
                        }
                        assert forall|i: int| 0 <= i < start.queue_delayed@.len() implies #[trigger] self.queue_delayed@[i] == start.queue_delayed@[i] by {
                            assert(self.queue_delayed@[i] == popped.queue_delayed@[i]);
                        }
                        trace = t2;
                    }
                },
                None => {},
            }
        }
    }

    /// The invariant survives any growth of the compilation that leaves the modules,
    /// the queues and the split points alone.
    proof fn lemma_inv_after_growth(&self, old: &CodeSplitter)
        requires
            old.inv(),
            self.compilation.wf(),
            Self::extends(self, old),
            self.queue == old.queue,
            self.queue_delayed == old.queue_delayed,
            self.split_point_modules == old.split_point_modules,
            self.next_free_module_pre_order_index == old.next_free_module_pre_order_index,
            self.next_free_module_post_order_index == old.next_free_module_post_order_index,
            self.compilation.module_graph == old.compilation.module_graph,
        ensures
            self.inv(),
    {
        Self::lemma_items_carry_over(self, old, old.queue@);
        Self::lemma_items_carry_over(self, old, old.queue_delayed@);
        assert(self.pre_numbered() =~= old.pre_numbered());
        assert(self.post_numbered() =~= old.post_numbered());
        let cg = self.compilation.chunk_graph;
        assert forall|c: usize, m: usize|
            c < self.num_chunks() && cg.has_chunk(c) && #[trigger] cg.chunk_modules(c).contains(m)
            implies m < self.num_modules() by {
            assert(cg.has_module(m));
        }
        lemma_total_connections_bound(cg, self.num_chunks(), self.num_modules());
    }

    /// The module that dependency `j` of entry `i` resolves to, if it does.
    pub open spec fn entry_module(c: &Compilation, i: int, j: int) -> Option<ModuleIdentifier> {
        c.module_graph.spec_module_by_dependency(c.entries@[i].dependencies@[j])
    }

    /// Whether every dependency of every entry resolves to a module.
    pub open spec fn entries_resolve(c: &Compilation) -> bool {
        forall|i: int, j: int|
            0 <= i < c.entries.len() && 0 <= j < c.entries@[i].dependencies.len()
                ==> (#[trigger] c.module_graph.spec_module_by_dependency(
                c.entries@[i].dependencies@[j],
            )) is Some
    }

    /// Creates a chunk and an entrypoint for every entry, connects the entry modules, and
    /// gives each entry with a runtime option its runtime chunk. Returns, for each entrypoint
    /// with entry modules, the entrypoint and its entry modules.
    #[verifier::spinoff_prover]
    #[verifier::rlimit(20)]
    fn prepare_input_entrypoints_and_modules(&mut self) -> (result: Result<
        Vec<(ChunkGroupUkey, Vec<ModuleIdentifier>)>,
        SplitError,
    >)
        requires
            old(self).inv(),
        ensures
            final(self).inv(),
            Self::extends(final(self), old(self)),
            final(self).queue == old(self).queue,
            final(self).queue_delayed == old(self).queue_delayed,
            final(self).split_point_modules == old(self).split_point_modules,
            final(self).chunk_relation_graph == old(self).chunk_relation_graph,
            final(self).next_free_module_pre_order_index
                == old(self).next_free_module_pre_order_index,
            final(self).next_free_module_post_order_index
                == old(self).next_free_module_post_order_index,
            final(self).compilation.module_graph == old(self).compilation.module_graph,
            final(self).compilation.entries == old(self).compilation.entries,
            result is Ok <==> Self::entries_resolve(&old(self).compilation),
            result matches Ok(input) ==> forall|k: int|
                0 <= k < input.len() ==> final(self).input_ok(#[trigger] input@[k]),
            result matches Ok(input) ==> {
                let c = old(self).compilation;
                let n0 = c.num_groups();
                let exp = input_upto(&c, n0, c.entries.len() as nat);
                &&& final(self).compilation.num_groups() == n0 + c.entries.len()
                &&& input@.len() == exp.len()
                &&& forall|k: int| 0 <= k < exp.len() ==> (#[trigger] input@[k]).0 == exp[k].0 && input@[k].1@ == exp[k].1
                &&& forall|h: int| 0 <= h < n0 ==> #[trigger] final(self).compilation.chunk_group_by_ukey@[h] == c.chunk_group_by_ukey@[h]
                &&& final(self).names_grown(old(self), prepared_names(&c, c.entries.len() as int, c.entries.len() as int))
                &&& names_distinct(&c) ==> forall|e: int| 0 <= e < c.entries.len() ==> #[trigger] final(self).entry_group_is(n0, e, c.entries.len() as int)
                &&& names_distinct(&c) ==> forall|e: int| 0 <= e < c.entries.len() ==> final(self).compilation.entrypoints@[#[trigger] c.entries@[e].name@] == n0 + e
                &&& final(self).groups_named(old(self), &c, c.entries.len() as int)
                &&& names_distinct(&c) ==> forall|e: int| 0 <= e < c.entries.len() ==> final(self).compilation.named_chunk_groups@[#[trigger] c.entries@[e].name@] == n0 + e
                &&& names_distinct(&c) && entry_names_new(&c) ==> final(self).entry_modules_grouped(&c, n0, c.entries.len() as int)
                &&& final(self).entries_connected(&c, c.entries.len() as int)
                &&& final(self).sp_recorded(old(self), final(self).compilation.named_chunks@, c.entries.len() as int, Seq::empty(), 0)
            },
            old(self).is_fresh() && result is Ok ==> final(self).law_links(),
            old(self).is_fresh() && result is Ok ==> final(self).law_counts(),
            old(self).is_fresh() && result is Ok ==> final(self).law_names(),
            old(self).is_fresh() && result is Ok ==> final(self).law_indexed(),
            old(self).is_fresh() && result is Ok ==> final(self).law_chunk_ids(),
            old(self).is_fresh() ==> (result matches Ok(input) ==> {
                &&& final(self).prepared_but(Seq::empty(), 0)
                &&& final(self).input_covers_but(input@, Seq::empty(), 0)
                &&& entries_rooted(&final(self).compilation)
            }),
    {
        let ghost start = *self;
        let num_entries = self.compilation.entries.len();
        let mut input: Vec<(ChunkGroupUkey, Vec<ModuleIdentifier>)> = Vec::new();
        let mut i: usize = 0;
        proof {
            assert(prepared_names(&start.compilation, 0, 0) =~= Set::empty());
            assert(self.compilation.named_chunks@.dom() =~= start.compilation.named_chunks@.dom().union(prepared_names(&start.compilation, 0, 0)));
            assert(input@ =~= Seq::empty());
            assert(self.compilation.entrypoints@.dom() =~= start.compilation.entrypoints@.dom().union(prepared_names(&start.compilation, 0, 0)));
            assert(self.compilation.named_chunk_groups@.dom() =~= start.compilation.named_chunk_groups@.dom().union(prepared_names(&start.compilation, 0, 0)));
        }
        while i < num_entries
            invariant
                self.grown_from(&start),
                start == *old(self),
                i <= num_entries,
                num_entries == self.compilation.entries.len(),
                forall|e: int|
                    0 <= e < i ==> self.compilation.entrypoints@.contains_key(
                        #[trigger] self.compilation.entries@[e].name@,
                    ),
                forall|e: int, j: int|
                    0 <= e < i && 0 <= j < self.compilation.entries@[e].dependencies.len()
                        ==> (#[trigger] self.compilation.module_graph.spec_module_by_dependency(
                        self.compilation.entries@[e].dependencies@[j],
                    )) is Some,
                forall|k: int| 0 <= k < input.len() ==> self.input_ok(#[trigger] input@[k]),
                start.is_fresh() ==> self.prepared_but(Seq::empty(), 0) && self.input_covers_but(input@, Seq::empty(), 0),
                start.is_fresh() ==> entries_rooted_upto(&self.compilation, i as int, i as int),
                self.compilation.num_groups() == start.compilation.num_groups() + i,
                forall|e: int| 0 <= e < i ==> #[trigger] self.entry_group_is(start.compilation.num_groups(), e, 0),
                forall|h: int| 0 <= h < start.compilation.num_groups() ==> #[trigger] self.compilation.chunk_group_by_ukey@[h] == start.compilation.chunk_group_by_ukey@[h],
                self.names_grown(&start, prepared_names(&start.compilation, i as int, 0)),
                input@.len() == input_upto(&start.compilation, start.compilation.num_groups(), i as nat).len(),
                forall|k: int| 0 <= k < input.len() ==> (#[trigger] input@[k]).0 == input_upto(&start.compilation, start.compilation.num_groups(), i as nat)[k].0
                    && input@[k].1@ == input_upto(&start.compilation, start.compilation.num_groups(), i as nat)[k].1,
                forall|e: int| 0 <= e < i ==> start.compilation.num_groups() <= self.compilation.entrypoints@[#[trigger] self.compilation.entries@[e].name@] < start.compilation.num_groups() + i,
                names_distinct(&start.compilation) ==> forall|e: int| 0 <= e < i ==> self.compilation.entrypoints@[#[trigger] self.compilation.entries@[e].name@] == start.compilation.num_groups() + e,
                self.entries_connected(&start.compilation, i as int),
                self.sp_recorded(&start, self.compilation.named_chunks@, i as int, Seq::empty(), 0),
                forall|e: int| 0 <= e < i ==> self.compilation.named_chunks@.contains_key(#[trigger] start.compilation.entries@[e].name@),
                self.groups_named(&start, &start.compilation, i as int),
                self.new_chunks_id_named(start.num_chunks()),
                names_distinct(&start.compilation) && entry_names_new(&start.compilation) ==> self.entry_modules_grouped(&start.compilation, start.compilation.num_groups(), i as int),
            decreases num_entries - i,
        {
            let name = self.compilation.entries[i].name.clone();
            let num_deps = self.compilation.entries[i].dependencies.len();
            let mut module_identifiers: Vec<ModuleIdentifier> = Vec::new();
            let ghost mut src: Seq<int> = Seq::empty();
            let mut j: usize = 0;
            while j < num_deps
                invariant
                    self.grown_from(&start),
                    start == *old(self),
                    forall|e: int|
                        0 <= e < i ==> self.compilation.entrypoints@.contains_key(
                            #[trigger] self.compilation.entries@[e].name@,
                        ),
                    forall|e: int, jj: int|
                        0 <= e < i && 0 <= jj < self.compilation.entries@[e].dependencies.len()
                            ==> (#[trigger] self.compilation.module_graph.spec_module_by_dependency(
                            self.compilation.entries@[e].dependencies@[jj],
                        )) is Some,
                    forall|k: int| 0 <= k < input.len() ==> self.input_ok(#[trigger] input@[k]),
                    j <= num_deps,
                    i < num_entries,
                    num_entries == self.compilation.entries.len(),
                    num_deps == self.compilation.entries@[i as int].dependencies.len(),
                    forall|k: int|
                        0 <= k < module_identifiers.len() ==> #[trigger] module_identifiers@[k]
                            < self.num_modules(),
                    start.is_fresh() ==> self.prepared_but(Seq::empty(), 0) && self.input_covers_but(input@, Seq::empty(), 0),
                    src.len() == module_identifiers.len(),
                    forall|x: int| 0 <= x < module_identifiers.len() ==> 0 <= #[trigger] src[x] < j
                        && Self::entry_module(&start.compilation, i as int, src[x]) == Some(module_identifiers@[x]),
                    start.is_fresh() ==> entries_rooted_upto(&self.compilation, i as int, i as int),
                self.compilation.num_groups() == start.compilation.num_groups() + i,
                forall|e: int| 0 <= e < i ==> #[trigger] self.entry_group_is(start.compilation.num_groups(), e, 0),
                forall|h: int| 0 <= h < start.compilation.num_groups() ==> #[trigger] self.compilation.chunk_group_by_ukey@[h] == start.compilation.chunk_group_by_ukey@[h],
                self.names_grown(&start, prepared_names(&start.compilation, i as int, 0)),
                input@.len() == input_upto(&start.compilation, start.compilation.num_groups(), i as nat).len(),
                forall|k: int| 0 <= k < input.len() ==> (#[trigger] input@[k]).0 == input_upto(&start.compilation, start.compilation.num_groups(), i as nat)[k].0
                    && input@[k].1@ == input_upto(&start.compilation, start.compilation.num_groups(), i as nat)[k].1,
                forall|e: int| 0 <= e < i ==> start.compilation.num_groups() <= self.compilation.entrypoints@[#[trigger] self.compilation.entries@[e].name@] < start.compilation.num_groups() + i,
                names_distinct(&start.compilation) ==> forall|e: int| 0 <= e < i ==> self.compilation.entrypoints@[#[trigger] self.compilation.entries@[e].name@] == start.compilation.num_groups() + e,
                    self.entries_connected(&start.compilation, i as int),
                    self.sp_recorded(&start, self.compilation.named_chunks@, i as int, Seq::empty(), 0),
                    forall|e: int| 0 <= e < i ==> self.compilation.named_chunks@.contains_key(#[trigger] start.compilation.entries@[e].name@),
                    forall|jj: int| 0 <= jj < j && (#[trigger] Self::entry_module(&start.compilation, i as int, jj)) is Some
                        ==> module_identifiers@.contains(Self::entry_module(&start.compilation, i as int, jj).unwrap()),
                    self.groups_named(&start, &start.compilation, i as int),
                    self.new_chunks_id_named(start.num_chunks()),
                    names_distinct(&start.compilation) && entry_names_new(&start.compilation) ==> self.entry_modules_grouped(&start.compilation, start.compilation.num_groups(), i as int),
                decreases num_deps - j,
            {
                match self.compilation.module_graph.module_by_dependency(
                    self.compilation.entries[i].dependencies[j],
                ) {
                    Some(m) => {
                        proof {
                            let d = self.compilation.entries@[i as int].dependencies@[j as int];
                            assert(self.compilation.module_graph.dependency_modules@[d as int] is Some);
                        }
                        let ghost before = module_identifiers@;
                        let ghost src_before = src;
                        module_identifiers.push(m);
                        proof {
                            assert(Self::entry_module(&start.compilation, i as int, j as int) == Some(m));
                            src = src.push(j as int);
                            assert forall|x: int| 0 <= x < module_identifiers.len() implies 0 <= #[trigger] src[x] < j + 1
                                && Self::entry_module(&start.compilation, i as int, src[x]) == Some(module_identifiers@[x]) by {
                                if x < before.len() {
                                    assert(module_identifiers@[x] == before[x]);
                                    assert(src[x] == src_before[x]);
                                }
                            }
                            assert forall|jj: int| 0 <= jj < j + 1 && (#[trigger] Self::entry_module(&start.compilation, i as int, jj)) is Some
                                implies module_identifiers@.contains(Self::entry_module(&start.compilation, i as int, jj).unwrap()) by {
                                if jj < j {
                                    let w = choose|w: int| 0 <= w < before.len() && before[w] == Self::entry_module(&start.compilation, i as int, jj).unwrap();
                                    assert(module_identifiers@[w] == before[w]);
                                } else {
                                    assert(module_identifiers@[before.len() as int] == m);
                                }
                            }
                        }
                    },
                    None => {},
                }
                j = j + 1;
            }
            let ghost c0 = self.compilation;
            let ghost pre = *self;
            let chunk = Compilation::add_named_chunk(
                name.clone(),
                name.clone(),
                &mut self.compilation.chunk_by_ukey,
                &mut self.compilation.named_chunks,
            );
            self.compilation.chunk_graph.add_chunk(chunk);
            proof {
                assert forall|c: int| 0 <= c < self.num_chunks() implies #[trigger] self.compilation.chunk_by_ukey@[c].ukey == c by {
                    if c < c0.num_chunks() {
                        assert(c0.chunk_by_ukey@[c].ukey == c);
                        assert(self.compilation.chunk_by_ukey@.subrange(0, c0.num_chunks() as int)[c] == self.compilation.chunk_by_ukey@[c]);
                    }
                }
                c0.chunk_graph.lemma_wf_widen(c0.num_chunks(), c0.num_modules(), c0.num_groups(), self.num_chunks(), c0.num_groups());
                assert forall|x: ChunkUkey| x < self.num_chunks() implies #[trigger] self.compilation.chunk_graph.has_chunk(x) by {
                    if x < c0.num_chunks() {
                        assert(c0.chunk_graph.has_chunk(x));
                    }
                }
                Compilation::lemma_wf_grow_chunks(&c0, &self.compilation);
                if start.is_fresh() {
                    let cg = self.compilation.chunk_graph;
                    let ocg = c0.chunk_graph;
                    assert forall|c: int| 0 <= c < pre.num_chunks() implies (#[trigger] self.compilation.chunk_by_ukey@[c]).runtime
                        == pre.compilation.chunk_by_ukey@[c].runtime by {
                        assert(self.compilation.chunk_by_ukey@.subrange(0, c0.num_chunks() as int)[c] == self.compilation.chunk_by_ukey@[c]);
                    }
                    assert forall|h: ChunkGroupUkey| h < pre.compilation.num_groups() implies #[trigger] self.group(h) == pre.group(h) by {
                    }
                    assert forall|c: ChunkUkey| #[trigger] cg.has_chunk(c) && !ocg.has_chunk(c)
                        implies cg.entry_modules(c) == Map::<ModuleIdentifier, ChunkGroupUkey>::empty()
                        && cg.chunk_modules(c) == Set::<ModuleIdentifier>::empty() by {
                    }
                    assert(self.prepare_frame(&pre));
                    assert forall|k: int| 0 <= k < input.len() implies (#[trigger] input@[k]).0 < pre.compilation.num_groups() by {
                        assert(pre.input_ok(input@[k]));
                    }
                    self.lemma_prepare_frame(&pre, Seq::empty(), 0, input@, Seq::empty(), 0);
                    assert(entries_frame(&pre.compilation, &self.compilation)) by {
                        let cg = self.compilation.chunk_graph;
                        let ocg = pre.compilation.chunk_graph;
                        assert forall|n: Seq<char>| #[trigger] pre.compilation.named_chunks@.contains_key(n) implies
                            self.compilation.named_chunks@.contains_key(n)
                            && self.compilation.named_chunks@[n] == pre.compilation.named_chunks@[n] by {
                        }
                        assert forall|c: ChunkUkey| #[trigger] ocg.has_chunk(c) implies cg.has_chunk(c)
                            && cg.entry_modules(c) == ocg.entry_modules(c) by {
                        }
                    }
                    lemma_entries_rooted_frame(&pre.compilation, &self.compilation, i as int, i as int);
                    assert(self.compilation.named_chunks@.contains_key(name@));
                    assert(self.compilation.named_chunks@[name@] == chunk);
                }
                self.lemma_names_grown_add(&pre, &start, prepared_names(&start.compilation, i as int, 0), name@);
                assert forall|k: ChunkUkey| pre.num_chunks() <= k < self.num_chunks() implies #[trigger] self.chunk_id_named(k) by {
                    assert(k == chunk);
                }
                assert forall|c: int| 0 <= c < pre.num_chunks() implies (#[trigger] self.compilation.chunk_by_ukey@[c]).name
                    == pre.compilation.chunk_by_ukey@[c].name && self.compilation.chunk_by_ukey@[c].id == pre.compilation.chunk_by_ukey@[c].id by {
                    if pre.num_chunks() < self.num_chunks() {
                        assert(self.compilation.chunk_by_ukey@.subrange(0, pre.num_chunks() as int)[c] == self.compilation.chunk_by_ukey@[c]);
                    }
                }
                self.lemma_id_named_carry(&pre, start.num_chunks());
                if names_distinct(&start.compilation) && entry_names_new(&start.compilation) {
                    let c = start.compilation;
                    assert forall|e: int, jj: int| 0 <= e < i && 0 <= jj < c.entries@[e].dependencies.len()
                        implies #[trigger] self.compilation.chunk_graph.entry_modules(self.compilation.named_chunks@[c.entries@[e].name@])[entry_mods(&c, e)[jj]]
                            == start.compilation.num_groups() + e by {
                        assert(pre.entry_connected(&c, e, c.entries@[e].dependencies.len() as int));
                        assert(pre.connected_at(&c, e, jj));
                        let k = pre.compilation.named_chunks@[c.entries@[e].name@];
                        assert(pre.compilation.named_chunks@.contains_key(c.entries@[e].name@));
                        assert(self.compilation.named_chunks@[c.entries@[e].name@] == k);
                        assert(self.compilation.chunk_graph.entry_modules(k) == pre.compilation.chunk_graph.entry_modules(k));
                    }
                }
                self.lemma_entry_groups_carry(&pre, start.compilation.num_groups(), i as int, 0);
                assert forall|e: int| 0 <= e < i || e == -1 implies #[trigger] pre.compilation.named_chunks@.contains_key(start.compilation.entries@[e].name@)
                    ==> self.compilation.named_chunks@.contains_key(start.compilation.entries@[e].name@)
                    && self.compilation.named_chunks@[start.compilation.entries@[e].name@] == pre.compilation.named_chunks@[start.compilation.entries@[e].name@] by {
                }
                assert forall|kk: ChunkUkey| #[trigger] pre.compilation.chunk_graph.has_chunk(kk) implies self.compilation.chunk_graph.has_chunk(kk)
                    && pre.compilation.chunk_graph.entry_modules(kk).dom().subset_of(self.compilation.chunk_graph.entry_modules(kk).dom()) by {
                    assert(self.compilation.chunk_graph.entry_modules(kk) == pre.compilation.chunk_graph.entry_modules(kk));
                }
                self.lemma_connected_carry(&pre, &start.compilation, i as int, -1, 0);
                assert(self.compilation.chunk_graph.split_points() == pre.compilation.chunk_graph.split_points());
                assert(self.sp_recorded(&start, pre.compilation.named_chunks@, i as int, Seq::empty(), 0));
                self.lemma_sp_names(&start, pre.compilation.named_chunks@, self.compilation.named_chunks@, i as int, Seq::empty(), 0);
                assert(module_identifiers@.take(0) =~= Seq::<ModuleIdentifier>::empty());
                assert forall|mm: ModuleIdentifier| module_identifiers@.contains(mm) <==> #[trigger] lists(&start.compilation, i as int, mm) by {
                    if module_identifiers@.contains(mm) {
                        let x = choose|x: int| 0 <= x < module_identifiers.len() && module_identifiers@[x] == mm;
                        assert(Self::entry_module(&start.compilation, i as int, src[x]) == Some(mm));
                    }
                    if lists(&start.compilation, i as int, mm) {
                        let jj = choose|jj: int| 0 <= jj < start.compilation.entries@[i as int].dependencies.len()
                            && #[trigger] Self::entry_module(&start.compilation, i as int, jj) == Some(mm);
                        assert(Self::entry_module(&start.compilation, i as int, jj) is Some);
                    }
                }
                assert(prepared_names(&start.compilation, i as int + 1, 0) =~= prepared_names(&start.compilation, i as int, 0).insert(name@));
            }
            let mut j: usize = 0;
            while j < module_identifiers.len()
                invariant
                    self.grown_from(&start),
                    start == *old(self),
                    forall|e: int|
                        0 <= e < i ==> self.compilation.entrypoints@.contains_key(
                            #[trigger] self.compilation.entries@[e].name@,
                        ),
                    forall|e: int, jj: int|
                        0 <= e < i && 0 <= jj < self.compilation.entries@[e].dependencies.len()
                            ==> (#[trigger] self.compilation.module_graph.spec_module_by_dependency(
                            self.compilation.entries@[e].dependencies@[jj],
                        )) is Some,
                    forall|k: int| 0 <= k < input.len() ==> self.input_ok(#[trigger] input@[k]),
                    i < num_entries,
                    num_entries == self.compilation.entries.len(),
                    chunk < self.num_chunks(),
                    j <= module_identifiers.len(),
                    forall|k: int|
                        0 <= k < module_identifiers.len() ==> #[trigger] module_identifiers@[k]
                            < self.num_modules(),
                    src.len() == module_identifiers.len(),
                    forall|x: int| 0 <= x < module_identifiers.len() ==> 0 <= #[trigger] src[x] < num_deps
                        && Self::entry_module(&start.compilation, i as int, src[x]) == Some(module_identifiers@[x]),
                    num_deps == self.compilation.entries@[i as int].dependencies.len(),
                    start.is_fresh() ==> self.prepared_but(module_identifiers@, chunk) && self.input_covers_but(input@, Seq::empty(), 0),
                    start.is_fresh() ==> {
                        &&& entries_rooted_upto(&self.compilation, i as int, i as int)
                        &&& self.compilation.named_chunks@.contains_key(self.compilation.entries@[i as int].name@)
                        &&& self.compilation.named_chunks@[self.compilation.entries@[i as int].name@] == chunk
                        &&& self.compilation.chunk_graph.has_chunk(chunk)
                    },
                    name@ == self.compilation.entries@[i as int].name@,
                    self.compilation.named_chunks@.contains_key(name@),
                    self.compilation.named_chunks@[name@] == chunk,
                    self.compilation.num_groups() == start.compilation.num_groups() + i,
                    forall|e: int| 0 <= e < i ==> #[trigger] self.entry_group_is(start.compilation.num_groups(), e, 0),
                    forall|h: int| 0 <= h < start.compilation.num_groups() ==> #[trigger] self.compilation.chunk_group_by_ukey@[h] == start.compilation.chunk_group_by_ukey@[h],
                    self.names_grown(&start, prepared_names(&start.compilation, i as int + 1, 0)),
                    input@.len() == input_upto(&start.compilation, start.compilation.num_groups(), i as nat).len(),
                    forall|k: int| 0 <= k < input.len() ==> (#[trigger] input@[k]).0 == input_upto(&start.compilation, start.compilation.num_groups(), i as nat)[k].0
                        && input@[k].1@ == input_upto(&start.compilation, start.compilation.num_groups(), i as nat)[k].1,
                    forall|e: int| 0 <= e < i ==> start.compilation.num_groups() <= self.compilation.entrypoints@[#[trigger] self.compilation.entries@[e].name@] < start.compilation.num_groups() + i,
                    names_distinct(&start.compilation) ==> forall|e: int| 0 <= e < i ==> self.compilation.entrypoints@[#[trigger] self.compilation.entries@[e].name@] == start.compilation.num_groups() + e,
                    self.entries_connected(&start.compilation, i as int),
                    self.sp_recorded(&start, self.compilation.named_chunks@, i as int, module_identifiers@.take(j as int), chunk),
                    forall|e: int| 0 <= e < i ==> self.compilation.named_chunks@.contains_key(#[trigger] start.compilation.entries@[e].name@),
                    forall|mm: ModuleIdentifier| module_identifiers@.contains(mm) <==> #[trigger] lists(&start.compilation, i as int, mm),
                    self.groups_named(&start, &start.compilation, i as int),
                    self.new_chunks_id_named(start.num_chunks()),
                    names_distinct(&start.compilation) && entry_names_new(&start.compilation) ==> self.entry_modules_grouped(&start.compilation, start.compilation.num_groups(), i as int),
                decreases module_identifiers.len() - j,
            {
                let ghost c1 = self.compilation;
                let ghost pre = *self;
                self.compilation.chunk_graph.set_split_point(module_identifiers[j], chunk);
                proof {
                    assert(module_identifiers@[j as int] < self.num_modules());
                    assert forall|x: ChunkUkey| x < self.num_chunks() implies #[trigger] self.compilation.chunk_graph.has_chunk(x) by {
                        assert(c1.chunk_graph.has_chunk(x));
                    }
                    Compilation::lemma_wf_grow_chunks(&c1, &self.compilation);
                    if start.is_fresh() {
                        assert(module_identifiers@.contains(module_identifiers@[j as int]));
                        self.lemma_prepare_split_point(&pre, module_identifiers@[j as int], chunk, module_identifiers@, input@);
                        assert(entries_frame(&pre.compilation, &self.compilation));
                        lemma_entries_rooted_frame(&pre.compilation, &self.compilation, i as int, i as int);
                    }
                    self.lemma_names_grown_same(&pre, &start, prepared_names(&start.compilation, i as int + 1, 0));
                    self.lemma_entry_groups_carry(&pre, start.compilation.num_groups(), i as int, 0);
                    self.lemma_sp_push(&pre, &start, self.compilation.named_chunks@, i as int, module_identifiers@.take(j as int), module_identifiers@[j as int], chunk);
                    self.lemma_id_named_carry(&pre, start.num_chunks());
                    if names_distinct(&start.compilation) && entry_names_new(&start.compilation) {
                        let c = start.compilation;
                        assert forall|e: int, jj: int| 0 <= e < i && 0 <= jj < c.entries@[e].dependencies.len()
                            implies #[trigger] self.compilation.chunk_graph.entry_modules(self.compilation.named_chunks@[c.entries@[e].name@])[entry_mods(&c, e)[jj]]
                                == start.compilation.num_groups() + e by {
                            let k = pre.compilation.named_chunks@[c.entries@[e].name@];
                            assert(pre.compilation.chunk_graph.entry_modules(k)[entry_mods(&c, e)[jj]] == start.compilation.num_groups() + e);
                            assert(self.compilation.chunk_graph.entry_modules(k) == pre.compilation.chunk_graph.entry_modules(k));
                        }
                    }
                    assert(module_identifiers@.take(j as int + 1) =~= module_identifiers@.take(j as int).push(module_identifiers@[j as int]));
                    assert forall|kk: ChunkUkey| #[trigger] pre.compilation.chunk_graph.has_chunk(kk) implies self.compilation.chunk_graph.has_chunk(kk)
                        && pre.compilation.chunk_graph.entry_modules(kk).dom().subset_of(self.compilation.chunk_graph.entry_modules(kk).dom()) by {
                    }
                    self.lemma_connected_carry(&pre, &start.compilation, i as int, -1, 0);
                }
                j = j + 1;
            }
            proof {
                assert(module_identifiers@.take(module_identifiers.len() as int) =~= module_identifiers@);
                self.lemma_sp_close(&start, self.compilation.named_chunks@, i as int, module_identifiers@, chunk);
            }
            let g = self.compilation.chunk_group_by_ukey.len();
            let mut entrypoint = ChunkGroup::new(
                g,
                ChunkGroupKind::Entrypoint,
                Some(name.clone()),
            );
            if self.compilation.entries[i].options.runtime.is_none() {
                entrypoint.set_runtime_chunk(chunk);
            }
            entrypoint.set_entry_point_chunk(chunk);
            let ghost c2 = self.compilation;
            let ghost pre = *self;
            entrypoint.connect_chunk(&mut self.compilation.chunk_by_ukey[chunk]);
            let ghost pre_maps = *self;
            self.compilation.named_chunk_groups.insert(name.clone(), g);
            self.compilation.entrypoints.insert(name, g);
            self.compilation.chunk_group_by_ukey.push(entrypoint);
            proof {
                let names = prepared_names(&start.compilation, i as int, 0);
                let names1 = prepared_names(&start.compilation, i as int + 1, 0);
                assert(names1 =~= names.insert(name@)) by {
                    assert(start.compilation.entries@[i as int].name@ == name@);
                }
                assert(pre_maps.groups_named(&start, &start.compilation, i as int));
                assert(self.compilation.entrypoints@.dom() =~= start.compilation.entrypoints@.dom().union(names1));
                assert(self.compilation.named_chunk_groups@.dom() =~= start.compilation.named_chunk_groups@.dom().union(names1));
                assert(self.groups_named(&start, &start.compilation, i as int + 1));
            }
            proof {
                let ng = self.compilation.chunk_group_by_ukey@[g as int];
                assert(ng.chunks@ =~= seq![chunk]);
                assert(ng.module_pre_order_indices@.dom() =~= Set::empty());
                assert(ng.module_post_order_indices@.dom() =~= Set::empty());
                assert(self.compilation.group_wf(ng));
                assert forall|c: int| 0 <= c < self.num_chunks() implies #[trigger] self.compilation.chunk_by_ukey@[c].ukey == c2.chunk_by_ukey@[c].ukey by {
                }
                assert forall|h: int| 0 <= h < c2.num_groups() implies #[trigger] self.compilation.chunk_group_by_ukey@[h] == c2.chunk_group_by_ukey@[h] by {
                }
                Compilation::lemma_wf_push_group(&c2, &self.compilation);
                if start.is_fresh() {
                    assert forall|c: int| 0 <= c < pre.num_chunks() implies (#[trigger] self.compilation.chunk_by_ukey@[c]).runtime
                        == pre.compilation.chunk_by_ukey@[c].runtime by {
                    }
                    assert forall|h: ChunkGroupUkey| h < pre.compilation.num_groups() implies #[trigger] self.group(h) == pre.group(h) by {
                    }
                    assert(self.prepare_frame(&pre));
                    assert forall|k: int| 0 <= k < input.len() implies (#[trigger] input@[k]).0 < pre.compilation.num_groups() by {
                        assert(pre.input_ok(input@[k]));
                    }
                    self.lemma_prepare_frame(&pre, module_identifiers@, chunk, input@, Seq::empty(), 0);
                    assert(self.group(g).entry_point_chunk == Some(chunk));
                    lemma_rooted_new_entrypoint(&pre.compilation, &self.compilation, i as int, g);
                    lemma_rooted_widen(&self.compilation, i as int, i as int, i as int + 1);
                }
                let n0 = start.compilation.num_groups();
                self.lemma_names_grown_same(&pre, &start, prepared_names(&start.compilation, i as int + 1, 0));
                assert forall|kk: ChunkUkey| #[trigger] pre.compilation.chunk_graph.has_chunk(kk) implies self.compilation.chunk_graph.has_chunk(kk)
                    && pre.compilation.chunk_graph.entry_modules(kk).dom().subset_of(self.compilation.chunk_graph.entry_modules(kk).dom()) by {
                }
                self.lemma_connected_carry(&pre, &start.compilation, i as int, -1, 0);
                assert(self.compilation.chunk_group_by_ukey@[g as int].chunks@ =~= seq![chunk]);
                assert(self.compilation.chunk_group_by_ukey@[g as int].parents@ =~= Set::<ChunkGroupUkey>::empty());
                assert forall|e: int| 0 <= e < i + 1 implies #[trigger] self.entry_group_is(n0, e, 0) by {
                    if e < i {
                        assert(pre.entry_group_is(n0, e, 0));
                        assert(self.compilation.chunk_group_by_ukey@[n0 + e] == pre.compilation.chunk_group_by_ukey@[n0 + e]);
                    }
                }
                assert forall|e: int| 0 <= e < i + 1 implies n0 <= self.compilation.entrypoints@[#[trigger] self.compilation.entries@[e].name@] < n0 + i + 1 by {
                    if e < i && self.compilation.entries@[e].name@ != name@ {
                        assert(pre.compilation.entrypoints@[pre.compilation.entries@[e].name@] < n0 + i);
                    }
                }
                if names_distinct(&start.compilation) {
                    assert forall|e: int| 0 <= e < i + 1 implies self.compilation.entrypoints@[#[trigger] self.compilation.entries@[e].name@] == n0 + e by {
                        if e < i {
                            assert(self.compilation.entries@[e].name@ != self.compilation.entries@[i as int].name@);
                            assert(pre.compilation.entrypoints@[pre.compilation.entries@[e].name@] == n0 + e);
                        }
                    }
                }
            }
            proof {
                assert forall|c: int| 0 <= c < pre.num_chunks() implies (#[trigger] self.compilation.chunk_by_ukey@[c]).name
                    == pre.compilation.chunk_by_ukey@[c].name && self.compilation.chunk_by_ukey@[c].id == pre.compilation.chunk_by_ukey@[c].id by {
                }
                self.lemma_id_named_carry(&pre, start.num_chunks());
                if names_distinct(&start.compilation) && entry_names_new(&start.compilation) {
                    let c = start.compilation;
                    assert(self.compilation.chunk_graph == pre.compilation.chunk_graph);
                    assert(self.compilation.named_chunks == pre.compilation.named_chunks);
                    assert(self.entry_modules_grouped(&c, start.compilation.num_groups(), i as int));
                    assert forall|e: int| 0 <= e < i implies self.compilation.named_chunks@[#[trigger] c.entries@[e].name@] != chunk by {
                        assert(c.entries@[e].name@ != c.entries@[i as int].name@);
                        assert(!c.named_chunks@.contains_key(c.entries@[e].name@));
                        assert(!c.named_chunks@.contains_key(c.entries@[i as int].name@));
                        assert(self.compilation.named_chunks@.contains_key(c.entries@[e].name@));
                        assert(self.compilation.named_chunks@.contains_key(c.entries@[i as int].name@));
                    }
                }
            }
            let mut modules: Vec<ModuleIdentifier> = Vec::new();
            let mut j: usize = 0;
            while j < num_deps
                invariant
                    self.grown_from(&start),
                    start == *old(self),
                    forall|e: int|
                        0 <= e < i ==> self.compilation.entrypoints@.contains_key(
                            #[trigger] self.compilation.entries@[e].name@,
                        ),
                    forall|e: int, jj: int|
                        0 <= e < i && 0 <= jj < self.compilation.entries@[e].dependencies.len()
                            ==> (#[trigger] self.compilation.module_graph.spec_module_by_dependency(
                            self.compilation.entries@[e].dependencies@[jj],
                        )) is Some,
                    forall|k: int| 0 <= k < input.len() ==> self.input_ok(#[trigger] input@[k]),
                    self.compilation.entrypoints@.contains_key(
                        self.compilation.entries@[i as int].name@,
                    ),
                    chunk < self.num_chunks(),
                    g < self.compilation.num_groups(),
                    self.compilation.chunk_group_by_ukey@[g as int].entry_point_chunk is Some,
                    j <= num_deps,
                    i < num_entries,
                    num_entries == self.compilation.entries.len(),
                    num_deps == self.compilation.entries@[i as int].dependencies.len(),
                    forall|k: int| 0 <= k < j ==> (#[trigger] self.compilation.module_graph.spec_module_by_dependency(
                        self.compilation.entries@[i as int].dependencies@[k],
                    )) is Some,
                    forall|k: int|
                        0 <= k < modules.len() ==> #[trigger] modules@[k] < self.num_modules(),
                    modules.len() == j,
                    src.len() == module_identifiers.len(),
                    forall|x: int| 0 <= x < module_identifiers.len() ==> 0 <= #[trigger] src[x] < num_deps
                        && Self::entry_module(&start.compilation, i as int, src[x]) == Some(module_identifiers@[x]),
                    forall|jj: int| 0 <= jj < j ==> Self::entry_module(&start.compilation, i as int, jj) == Some(#[trigger] modules@[jj]),
                    start.is_fresh() ==> {
                        &&& self.prepared_but(module_identifiers@, chunk)
                        &&& self.input_covers_but(input@, modules@, chunk)
                        &&& self.group(g).entry_point_chunk == Some(chunk)
                        &&& self.compilation.chunk_graph.has_chunk(chunk)
                        &&& forall|jj: int| 0 <= jj < j ==> self.is_entry_of(g, #[trigger] modules@[jj])
                    },
                    start.is_fresh() ==> {
                        &&& entries_rooted_upto(&self.compilation, i as int, i as int + 1)
                        &&& self.compilation.named_chunks@.contains_key(self.compilation.entries@[i as int].name@)
                        &&& self.compilation.named_chunks@[self.compilation.entries@[i as int].name@] == chunk
                        &&& self.compilation.entrypoints@[self.compilation.entries@[i as int].name@] == g
                        &&& self.compilation.chunk_group_by_ukey@[g as int].kind == ChunkGroupKind::Entrypoint
                        &&& forall|jj: int| 0 <= jj < j ==> #[trigger] entry_dependency_rooted(&self.compilation, i as int, jj, chunk)
                    },
                    g == start.compilation.num_groups() + i,
                    self.compilation.num_groups() == start.compilation.num_groups() + i + 1,
                    forall|e: int| 0 <= e < i + 1 ==> #[trigger] self.entry_group_is(start.compilation.num_groups(), e, 0),
                    forall|h: int| 0 <= h < start.compilation.num_groups() ==> #[trigger] self.compilation.chunk_group_by_ukey@[h] == start.compilation.chunk_group_by_ukey@[h],
                    self.names_grown(&start, prepared_names(&start.compilation, i as int + 1, 0)),
                    input@.len() == input_upto(&start.compilation, start.compilation.num_groups(), i as nat).len(),
                    forall|k: int| 0 <= k < input.len() ==> (#[trigger] input@[k]).0 == input_upto(&start.compilation, start.compilation.num_groups(), i as nat)[k].0
                        && input@[k].1@ == input_upto(&start.compilation, start.compilation.num_groups(), i as nat)[k].1,
                    forall|e: int| 0 <= e < i + 1 ==> start.compilation.num_groups() <= self.compilation.entrypoints@[#[trigger] self.compilation.entries@[e].name@] < start.compilation.num_groups() + i + 1,
                    names_distinct(&start.compilation) ==> forall|e: int| 0 <= e < i + 1 ==> self.compilation.entrypoints@[#[trigger] self.compilation.entries@[e].name@] == start.compilation.num_groups() + e,
                    self.entries_connected(&start.compilation, i as int),
                    self.entry_connected(&start.compilation, i as int, j as int),
                    self.sp_recorded(&start, self.compilation.named_chunks@, i as int + 1, Seq::empty(), 0),
                    forall|e: int| 0 <= e < i + 1 ==> self.compilation.named_chunks@.contains_key(#[trigger] start.compilation.entries@[e].name@),
                    self.compilation.named_chunks@[name@] == chunk,
                    name@ == start.compilation.entries@[i as int].name@,
                    self.groups_named(&start, &start.compilation, i as int + 1),
                    self.new_chunks_id_named(start.num_chunks()),
                    names_distinct(&start.compilation) && entry_names_new(&start.compilation) ==> self.entry_modules_grouped(&start.compilation, start.compilation.num_groups(), i as int),
                    names_distinct(&start.compilation) && entry_names_new(&start.compilation) ==> forall|e: int| 0 <= e < i ==> self.compilation.named_chunks@[#[trigger] start.compilation.entries@[e].name@] != chunk,
                    names_distinct(&start.compilation) && entry_names_new(&start.compilation) ==> forall|jj: int| 0 <= jj < j ==> self.compilation.chunk_graph.entry_modules(chunk)[#[trigger] modules@[jj]] == g,
                decreases num_deps - j,
            {
                let m = match self.compilation.module_graph.module_by_dependency(
                    self.compilation.entries[i].dependencies[j],
                ) {
                    Some(m) => m,
                    None => {
                        proof {
                            self.lemma_inv_after_growth(&start);
                        }
                        return Err(SplitError::NoModuleFound);
                    },
                };
                proof {
                    let d = self.compilation.entries@[i as int].dependencies@[j as int];
                    assert(self.compilation.module_graph.dependency_modules@[d as int] is Some);
                }
                let ghost c3 = self.compilation;
                let ghost pre = *self;
                let ghost modules_before = modules@;
                assert(self.compilation.chunk_graph.has_chunk(chunk));
                self.compilation.chunk_graph.add_module(m);
                let ghost mid_cg = self.compilation.chunk_graph;
                modules.push(m);
                self.compilation.chunk_graph.connect_chunk_and_entry_module(chunk, m, g);
                proof {
                    assert forall|x: ChunkUkey| x < self.num_chunks() implies #[trigger] self.compilation.chunk_graph.has_chunk(x) by {
                        assert(c3.chunk_graph.has_chunk(x));
                    }
                    Compilation::lemma_wf_grow_chunks(&c3, &self.compilation);
                    assert(modules@ == modules_before.push(m));
                    assert(Self::entry_module(&start.compilation, i as int, j as int) == Some(m));
                    assert forall|jj: int| 0 <= jj < j + 1 implies Self::entry_module(&start.compilation, i as int, jj) == Some(#[trigger] modules@[jj]) by {
                        if jj < j {
                            assert(modules@[jj] == modules_before[jj]);
                        }
                    }
                    if start.is_fresh() {
                        assert forall|c: ChunkUkey| #[trigger] self.compilation.chunk_graph.chunk_modules(c)
                            == pre.compilation.chunk_graph.chunk_modules(c) by {
                            assert(mid_cg.chunk_modules(c) == pre.compilation.chunk_graph.chunk_modules(c));
                        }
                        assert forall|c: ChunkUkey| #[trigger] self.compilation.chunk_graph.entry_modules(c) == if c == chunk {
                            pre.compilation.chunk_graph.entry_modules(c).insert(m, g)
                        } else {
                            pre.compilation.chunk_graph.entry_modules(c)
                        } by {
                            assert(mid_cg.entry_modules(c) == pre.compilation.chunk_graph.entry_modules(c));
                        }
                        self.lemma_prepare_entry(&pre, m, chunk, g, module_identifiers@, input@, modules_before);
                        assert(Self::entry_module(&pre.compilation, i as int, j as int) == Some(m));
                        lemma_rooted_connect(&pre.compilation, &self.compilation, i as int, j as int, m, g, chunk);
                        assert forall|jj: int| 0 <= jj < j + 1 implies #[trigger] entry_dependency_rooted(&self.compilation, i as int, jj, chunk) by {
                            if jj < j {
                                assert(entry_dependency_rooted(&pre.compilation, i as int, jj, chunk));
                            }
                        }
                        assert forall|jj: int| 0 <= jj < j + 1 implies self.is_entry_of(g, #[trigger] modules@[jj]) by {
                            if jj < j {
                                assert(modules@[jj] == modules_before[jj]);
                                assert(pre.is_entry_of(g, modules_before[jj]));
                            }
                        }
                    }
                    self.lemma_names_grown_same(&pre, &start, prepared_names(&start.compilation, i as int + 1, 0));
                    self.lemma_entry_groups_carry(&pre, start.compilation.num_groups(), i as int + 1, 0);
                    self.lemma_id_named_carry(&pre, start.num_chunks());
                    if names_distinct(&start.compilation) && entry_names_new(&start.compilation) {
                        let c = start.compilation;
                        assert forall|e: int, jj: int| 0 <= e < i && 0 <= jj < c.entries@[e].dependencies.len()
                            implies #[trigger] self.compilation.chunk_graph.entry_modules(self.compilation.named_chunks@[c.entries@[e].name@])[entry_mods(&c, e)[jj]]
                                == start.compilation.num_groups() + e by {
                            let k = pre.compilation.named_chunks@[c.entries@[e].name@];
                            assert(pre.compilation.chunk_graph.entry_modules(k)[entry_mods(&c, e)[jj]] == start.compilation.num_groups() + e);
                            assert(k != chunk);
                            assert(mid_cg.entry_modules(k) == pre.compilation.chunk_graph.entry_modules(k));
                        }
                        assert forall|jj: int| 0 <= jj < j + 1 implies self.compilation.chunk_graph.entry_modules(chunk)[#[trigger] modules@[jj]] == g by {
                            assert(mid_cg.entry_modules(chunk) == pre.compilation.chunk_graph.entry_modules(chunk));
                            if jj < j {
                                assert(modules@[jj] == modules_before[jj]);
                                assert(pre.compilation.chunk_graph.entry_modules(chunk)[modules_before[jj]] == g);
                            }
                        }
                    }
                    assert forall|kk: ChunkUkey| #[trigger] pre.compilation.chunk_graph.has_chunk(kk) implies self.compilation.chunk_graph.has_chunk(kk)
                        && pre.compilation.chunk_graph.entry_modules(kk).dom().subset_of(self.compilation.chunk_graph.entry_modules(kk).dom()) by {
                        assert(mid_cg.entry_modules(kk) == pre.compilation.chunk_graph.entry_modules(kk));
                    }
                    assert forall|mm: ModuleIdentifier| #[trigger] pre.compilation.chunk_graph.has_module(mm) implies self.compilation.chunk_graph.has_module(mm) by {
                        assert(mid_cg.has_module(mm));
                    }
                    self.lemma_connected_carry(&pre, &start.compilation, i as int, i as int, j as int);
                    assert(self.compilation.chunk_graph.split_points() == pre.compilation.chunk_graph.split_points());
                    assert(self.compilation.named_chunks@ == pre.compilation.named_chunks@);
                    assert(entry_mods(&start.compilation, i as int)[j as int] == m);
                    assert(self.connected_at(&start.compilation, i as int, j as int));
                    assert forall|jj: int| 0 <= jj < j + 1 implies #[trigger] self.connected_at(&start.compilation, i as int, jj) by {
                        if jj < j {
                            assert(self.entry_connected(&start.compilation, i as int, j as int));
                        }
                    }
                }
                j = j + 1;
            }
            proof {
                if start.is_fresh() {
                    assert(entry_rooted(&self.compilation, i as int));
                    lemma_rooted_close(&self.compilation, i as int);
                    assert forall|x: int| 0 <= x < module_identifiers.len() implies #[trigger] modules@.contains(module_identifiers@[x]) by {
                        assert(modules@[src[x]] == module_identifiers@[x]);
                    }
                    self.lemma_prepare_close(module_identifiers@, chunk, g, modules@);
                    self.lemma_prepare_push_input(input@, g, modules, chunk);
                }
            }
            proof {
                assert(modules@ =~= entry_mods(&start.compilation, i as int));
                if names_distinct(&start.compilation) && entry_names_new(&start.compilation) {
                    let c = start.compilation;
                    assert forall|e: int, jj: int| 0 <= e < i + 1 && 0 <= jj < c.entries@[e].dependencies.len()
                        implies #[trigger] self.compilation.chunk_graph.entry_modules(self.compilation.named_chunks@[c.entries@[e].name@])[entry_mods(&c, e)[jj]]
                            == start.compilation.num_groups() + e by {
                        if e == i {
                            assert(entry_mods(&c, e)[jj] == modules@[jj]);
                        }
                    }
                }
                assert forall|e: int| 0 <= e < i + 1 implies #[trigger] self.entry_connected(&start.compilation, e, start.compilation.entries@[e].dependencies.len() as int) by {
                    if e < i {
                        assert(self.entries_connected(&start.compilation, i as int));
                    }
                }
            }
            let ghost input_before = input@;
            let ghost mods = modules@;
            if modules.len() > 0 {
                input.push((g, modules));
            }
            proof {
                let n0 = start.compilation.num_groups();
                let exp = input_upto(&start.compilation, n0, (i + 1) as nat);
                let pexp = input_upto(&start.compilation, n0, i as nat);
                assert(exp == if start.compilation.entries@[i as int].dependencies.len() > 0 {
                    pexp.push(((n0 + i) as usize, entry_mods(&start.compilation, i as int)))
                } else {
                    pexp
                });
                assert forall|k: int| 0 <= k < input.len() implies (#[trigger] input@[k]).0 == exp[k].0 && input@[k].1@ == exp[k].1 by {
                    if k < input_before.len() {
                        assert(input@[k] == input_before[k]);
                    }
                }
            }
            i = i + 1;
        }
        proof {
            let n0 = start.compilation.num_groups();
            if names_distinct(&start.compilation) {
                assert forall|e: int| 0 <= e < num_entries implies #[trigger] self.entry_group_is(n0, e, 0) by {
                    assert(self.entry_group_is(n0, e, 0));
                }
            }
            assert forall|h: int| n0 <= h < self.compilation.num_groups()
                implies (#[trigger] self.compilation.chunk_group_by_ukey@[h]).kind == ChunkGroupKind::Entrypoint by {
                assert(self.entry_group_is(n0, h - n0, 0));
            }
        }
        let mut i: usize = 0;
        while i < num_entries
            invariant
                self.grown_from(&start),
                start == *old(self),
                i <= num_entries,
                num_entries == self.compilation.entries.len(),
                forall|e: int|
                    0 <= e < num_entries ==> self.compilation.entrypoints@.contains_key(
                        #[trigger] self.compilation.entries@[e].name@,
                    ),
                Self::entries_resolve(&start.compilation),
                forall|k: int| 0 <= k < input.len() ==> self.input_ok(#[trigger] input@[k]),
                start.is_fresh() ==> self.prepared_but(Seq::empty(), 0) && self.input_covers_but(input@, Seq::empty(), 0),
                start.is_fresh() ==> entries_rooted(&self.compilation),
                self.compilation.num_groups() == start.compilation.num_groups() + num_entries,
                names_distinct(&start.compilation) ==> forall|e: int| 0 <= e < num_entries ==> #[trigger] self.entry_group_is(start.compilation.num_groups(), e, i as int),
                forall|h: int| 0 <= h < start.compilation.num_groups() ==> #[trigger] self.compilation.chunk_group_by_ukey@[h] == start.compilation.chunk_group_by_ukey@[h],
                self.names_grown(&start, prepared_names(&start.compilation, num_entries as int, i as int)),
                input@.len() == input_upto(&start.compilation, start.compilation.num_groups(), num_entries as nat).len(),
                forall|k: int| 0 <= k < input.len() ==> (#[trigger] input@[k]).0 == input_upto(&start.compilation, start.compilation.num_groups(), num_entries as nat)[k].0
                    && input@[k].1@ == input_upto(&start.compilation, start.compilation.num_groups(), num_entries as nat)[k].1,
                forall|e: int| 0 <= e < num_entries ==> start.compilation.num_groups() <= self.compilation.entrypoints@[#[trigger] self.compilation.entries@[e].name@] < start.compilation.num_groups() + num_entries,
                names_distinct(&start.compilation) ==> forall|e: int| 0 <= e < num_entries ==> self.compilation.entrypoints@[#[trigger] self.compilation.entries@[e].name@] == start.compilation.num_groups() + e,
                self.entries_connected(&start.compilation, num_entries as int),
                self.sp_recorded(&start, self.compilation.named_chunks@, num_entries as int, Seq::empty(), 0),
                forall|e: int| 0 <= e < num_entries ==> self.compilation.named_chunks@.contains_key(#[trigger] start.compilation.entries@[e].name@),
                forall|h: int| start.compilation.num_groups() <= h < self.compilation.num_groups()
                    ==> (#[trigger] self.compilation.chunk_group_by_ukey@[h]).kind == ChunkGroupKind::Entrypoint,
                self.groups_named(&start, &start.compilation, num_entries as int),
                self.new_chunks_id_named(start.num_chunks()),
                names_distinct(&start.compilation) && entry_names_new(&start.compilation) ==> self.entry_modules_grouped(&start.compilation, start.compilation.num_groups(), num_entries as int),
            decreases num_entries - i,
        {
            let ghost top2 = *self;
            let runtime_option: Option<String> = match &self.compilation.entries[i].options.runtime {
                Some(runtime) => Some(runtime.clone()),
                None => None,
            };
            if let Some(runtime) = runtime_option {
                let ghost rn = runtime@;
                let name = self.compilation.entries[i].name.clone();
                proof {
                    assert(self.compilation.entrypoints@.contains_key(self.compilation.entries@[i as int].name@));
                }
                let g = *self.compilation.entrypoints.get(name.as_str()).unwrap();
                let ghost c0 = self.compilation;
                let ghost pre = *self;
                let chunk = match self.compilation.named_chunks.get(runtime.as_str()) {
                    Some(ukey) => *ukey,
                    None => {
                        let ukey = Compilation::add_named_chunk(
                            runtime.clone(),
                            runtime,
                            &mut self.compilation.chunk_by_ukey,
                            &mut self.compilation.named_chunks,
                        );
                        self.compilation.chunk_graph.add_chunk(ukey);
                        ukey
                    },
                };
                proof {
                    assert forall|c: int| 0 <= c < self.num_chunks() implies #[trigger] self.compilation.chunk_by_ukey@[c].ukey == c by {
                        if c < c0.num_chunks() {
                            assert(c0.chunk_by_ukey@[c].ukey == c);
                            assert(self.compilation.chunk_by_ukey@.subrange(0, c0.num_chunks() as int)[c] == self.compilation.chunk_by_ukey@[c]);
                        }
                    }
                    c0.chunk_graph.lemma_wf_widen(c0.num_chunks(), c0.num_modules(), c0.num_groups(), self.num_chunks(), c0.num_groups());
                    assert forall|x: ChunkUkey| x < self.num_chunks() implies #[trigger] self.compilation.chunk_graph.has_chunk(x) by {
                        if x < c0.num_chunks() {
                            assert(c0.chunk_graph.has_chunk(x));
                        }
                    }
                    Compilation::lemma_wf_grow_chunks(&c0, &self.compilation);
                    assert(self.compilation.group_wf(self.compilation.chunk_group_by_ukey@[g as int]));
                }
                let ghost c1 = self.compilation;
                self.compilation.chunk_group_by_ukey[g].unshift_chunk(
                    &mut self.compilation.chunk_by_ukey[chunk],
                );
                self.compilation.chunk_group_by_ukey[g].set_runtime_chunk(chunk);
                proof {
                    let og = c1.chunk_group_by_ukey@[g as int];
                    ChunkGroup::lemma_chunks_with_first_bounded(og.chunks@, chunk, c1.num_chunks());
                    assert(c1.chunk_by_ukey@[chunk as int].ukey == chunk);
                    Compilation::lemma_wf_update_group(&c1, &self.compilation, g);
                    assert forall|e: int|
                        0 <= e < num_entries implies self.compilation.entrypoints@.contains_key(
                            #[trigger] self.compilation.entries@[e].name@,
                        ) by {
                        assert(c0.entrypoints@.contains_key(c0.entries@[e].name@));
                    }
                    assert forall|h: int, x: ModuleIdentifier|
                        0 <= h < start.compilation.num_groups()
                            && #[trigger] start.compilation.chunk_group_by_ukey@[h].module_pre_order_indices@.contains_key(x)
                        implies self.compilation.chunk_group_by_ukey@[h].module_pre_order_indices@.contains_key(x) by {
                        assert(c0.chunk_group_by_ukey@[h].module_pre_order_indices@.contains_key(x));
                    }
                    assert forall|k: int| 0 <= k < input.len() implies self.input_ok(#[trigger] input@[k]) by {
                        assert(c0.chunk_group_by_ukey@[input@[k].0 as int].entry_point_chunk is Some);
                    }
                    if start.is_fresh() {
                        let cg = self.compilation.chunk_graph;
                        let ocg = pre.compilation.chunk_graph;
                        assert forall|c: int| 0 <= c < pre.num_chunks() implies (#[trigger] self.compilation.chunk_by_ukey@[c]).runtime
                            == pre.compilation.chunk_by_ukey@[c].runtime by {
                            if c != chunk {
                                assert(self.compilation.chunk_by_ukey@[c] == c1.chunk_by_ukey@[c]);
                            }
                            if c1.num_chunks() > c0.num_chunks() {
                                assert(c1.chunk_by_ukey@.subrange(0, c0.num_chunks() as int)[c] == c1.chunk_by_ukey@[c]);
                            }
                        }
                        assert forall|c: int| pre.num_chunks() <= c < self.num_chunks() implies (#[trigger] self.compilation.chunk_by_ukey@[c]).runtime@.len() == 0 by {
                            if c != chunk {
                                assert(self.compilation.chunk_by_ukey@[c] == c1.chunk_by_ukey@[c]);
                            }
                        }
                        assert forall|h: ChunkGroupUkey| h < pre.compilation.num_groups() implies {
                            &&& (#[trigger] self.group(h)).module_pre_order_indices == pre.group(h).module_pre_order_indices
                            &&& self.group(h).module_post_order_indices == pre.group(h).module_post_order_indices
                            &&& self.group(h).entry_point_chunk == pre.group(h).entry_point_chunk
                        } by {
                            if h != g {
                                assert(self.compilation.chunk_group_by_ukey@[h as int] == c1.chunk_group_by_ukey@[h as int]);
                            }
                        }
                        assert forall|c: ChunkUkey| #[trigger] cg.has_chunk(c) && !ocg.has_chunk(c)
                            implies cg.entry_modules(c) == Map::<ModuleIdentifier, ChunkGroupUkey>::empty()
                            && cg.chunk_modules(c) == Set::<ModuleIdentifier>::empty() by {
                        }
                        assert(self.prepare_frame(&pre));
                        assert forall|k: int| 0 <= k < input.len() implies (#[trigger] input@[k]).0 < pre.compilation.num_groups() by {
                            assert(pre.input_ok(input@[k]));
                        }
                        self.lemma_prepare_frame(&pre, Seq::empty(), 0, input@, Seq::empty(), 0);
                        assert(entries_frame(&pre.compilation, &self.compilation)) by {
                            assert forall|n: Seq<char>| #[trigger] pre.compilation.named_chunks@.contains_key(n) implies
                                self.compilation.named_chunks@.contains_key(n)
                                && self.compilation.named_chunks@[n] == pre.compilation.named_chunks@[n] by {
                            }
                            assert forall|h: int| 0 <= h < pre.compilation.num_groups() implies (#[trigger] self.compilation.chunk_group_by_ukey@[h]).kind
                                == pre.compilation.chunk_group_by_ukey@[h].kind && self.compilation.chunk_group_by_ukey@[h].entry_point_chunk
                                == pre.compilation.chunk_group_by_ukey@[h].entry_point_chunk by {
                                if h != g {
                                    assert(self.compilation.chunk_group_by_ukey@[h] == c1.chunk_group_by_ukey@[h]);
                                }
                            }
                        }
                        lemma_entries_rooted_frame(&pre.compilation, &self.compilation, num_entries as int, num_entries as int);
                    }
                    assert forall|c: int| 0 <= c < pre.num_chunks() implies (#[trigger] self.compilation.chunk_by_ukey@[c]).name
                        == pre.compilation.chunk_by_ukey@[c].name && self.compilation.chunk_by_ukey@[c].id == pre.compilation.chunk_by_ukey@[c].id by {
                        if c != chunk {
                            assert(self.compilation.chunk_by_ukey@[c] == c1.chunk_by_ukey@[c]);
                        }
                        if c1.num_chunks() > c0.num_chunks() {
                            assert(c1.chunk_by_ukey@.subrange(0, c0.num_chunks() as int)[c] == c1.chunk_by_ukey@[c]);
                        }
                    }
                    assert forall|k: ChunkUkey| pre.num_chunks() <= k < self.num_chunks() implies #[trigger] self.chunk_id_named(k) by {
                        assert(k == chunk);
                        assert(c1.chunk_by_ukey@[k as int].name.unwrap()@ == rn);
                        assert(c1.chunk_by_ukey@[k as int].id.unwrap()@ == rn);
                    }
                    self.lemma_id_named_carry(&pre, start.num_chunks());
                    let n0 = start.compilation.num_groups();
                    self.lemma_names_grown_add(&pre, &start, prepared_names(&start.compilation, num_entries as int, i as int), rn);
                    assert forall|e: int| 0 <= e < num_entries || e == -1 implies #[trigger] top2.compilation.named_chunks@.contains_key(start.compilation.entries@[e].name@)
                        ==> self.compilation.named_chunks@.contains_key(start.compilation.entries@[e].name@)
                        && self.compilation.named_chunks@[start.compilation.entries@[e].name@] == top2.compilation.named_chunks@[start.compilation.entries@[e].name@] by {
                    }
                    assert forall|kk: ChunkUkey| #[trigger] top2.compilation.chunk_graph.has_chunk(kk) implies self.compilation.chunk_graph.has_chunk(kk)
                        && top2.compilation.chunk_graph.entry_modules(kk).dom().subset_of(self.compilation.chunk_graph.entry_modules(kk).dom()) by {
                        assert(self.compilation.chunk_graph.entry_modules(kk) == top2.compilation.chunk_graph.entry_modules(kk));
                    }
                    self.lemma_connected_carry(&top2, &start.compilation, num_entries as int, -1, 0);
                    assert(self.compilation.chunk_graph.split_points() == top2.compilation.chunk_graph.split_points());
                    assert(self.sp_recorded(&start, top2.compilation.named_chunks@, num_entries as int, Seq::empty(), 0));
                    self.lemma_sp_names(&start, top2.compilation.named_chunks@, self.compilation.named_chunks@, num_entries as int, Seq::empty(), 0);
                    assert(prepared_names(&start.compilation, num_entries as int, i as int + 1) =~= prepared_names(&start.compilation, num_entries as int, i as int).insert(rn));
                    assert forall|h: int| 0 <= h < n0 implies #[trigger] self.compilation.chunk_group_by_ukey@[h] == start.compilation.chunk_group_by_ukey@[h] by {
                        assert(top2.compilation.chunk_group_by_ukey@[h] == start.compilation.chunk_group_by_ukey@[h]);
                    }
                    assert forall|h: int| n0 <= h < self.compilation.num_groups()
                        implies (#[trigger] self.compilation.chunk_group_by_ukey@[h]).kind == ChunkGroupKind::Entrypoint by {
                        assert(top2.compilation.chunk_group_by_ukey@[h].kind == ChunkGroupKind::Entrypoint);
                    }
                    assert forall|e: int| 0 <= e < num_entries implies n0 <= self.compilation.entrypoints@[#[trigger] self.compilation.entries@[e].name@] < n0 + num_entries by {
                        assert(top2.compilation.entrypoints@[top2.compilation.entries@[e].name@] < n0 + num_entries);
                    }
                    if names_distinct(&start.compilation) && entry_names_new(&start.compilation) {
                        let c = start.compilation;
                        assert forall|e: int, jj: int| 0 <= e < num_entries && 0 <= jj < c.entries@[e].dependencies.len()
                            implies #[trigger] self.compilation.chunk_graph.entry_modules(self.compilation.named_chunks@[c.entries@[e].name@])[entry_mods(&c, e)[jj]]
                                == n0 + e by {
                            assert(top2.entry_connected(&c, e, c.entries@[e].dependencies.len() as int));
                            assert(top2.connected_at(&c, e, jj));
                            let k = top2.compilation.named_chunks@[c.entries@[e].name@];
                            assert(top2.compilation.named_chunks@.contains_key(c.entries@[e].name@));
                            assert(self.compilation.named_chunks@[c.entries@[e].name@] == k);
                            assert(self.compilation.chunk_graph.entry_modules(k) == top2.compilation.chunk_graph.entry_modules(k));
                        }
                    }
                    if names_distinct(&start.compilation) {
                        assert(g == n0 + i);
                        assert forall|e: int| 0 <= e < num_entries implies #[trigger] self.entry_group_is(n0, e, i as int + 1) by {
                            assert(top2.entry_group_is(n0, e, i as int));
                            if e != i {
                                assert(self.compilation.chunk_group_by_ukey@[n0 + e] == top2.compilation.chunk_group_by_ukey@[n0 + e]);
                            }
                        }
                    }
                }
            } else {
                proof {
                    let n0 = start.compilation.num_groups();
                    assert(prepared_names(&start.compilation, num_entries as int, i as int + 1) =~= prepared_names(&start.compilation, num_entries as int, i as int));
                    if names_distinct(&start.compilation) {
                        assert forall|e: int| 0 <= e < num_entries implies #[trigger] self.entry_group_is(n0, e, i as int + 1) by {
                            assert(top2.entry_group_is(n0, e, i as int));
                        }
                    }
                }
            }
            i = i + 1;
        }
        proof {
            self.lemma_inv_after_growth(&start);
            if names_distinct(&start.compilation) {
                assert forall|e: int| 0 <= e < num_entries implies self.compilation.named_chunk_groups@[#[trigger] start.compilation.entries@[e].name@]
                    == start.compilation.num_groups() + e by {
                    assert(prepared_names(&start.compilation, num_entries as int, 0).contains(start.compilation.entries@[e].name@));
                }
            }
            if start.is_fresh() {
                assert(start.compilation.named_chunks@.dom() =~= Set::<Seq<char>>::empty()) by {
                    assert forall|n: Seq<char>| !start.compilation.named_chunks@.contains_key(n) by {
                        if start.compilation.named_chunks@.contains_key(n) {
                            assert(start.compilation.named_chunks@[n] < start.num_chunks());
                        }
                    }
                }
                assert(entry_names(&self.compilation) =~= prepared_names(&start.compilation, num_entries as int, num_entries as int));
                assert forall|k: ChunkUkey| k < self.num_chunks() implies #[trigger] self.chunk_named(k) by {
                    assert(self.named_new(&start, k));
                }
                assert forall|n: Seq<char>| #[trigger] self.compilation.named_chunks@.contains_key(n) implies entry_names(&self.compilation).contains(n) by {
                    assert(!start.compilation.named_chunks@.contains_key(n));
                }
                assert(pre_indexed(&self.compilation) =~= Set::<ModuleIdentifier>::empty());
                assert(post_indexed(&self.compilation) =~= Set::<ModuleIdentifier>::empty());
                let sp = self.compilation.chunk_graph.split_points();
                assert(link_edges(sp, self.split_from@, self.split_point_modules@) =~= Set::<(usize, usize)>::empty());
                assert forall|h: int|
                    0 <= h < self.compilation.num_groups() && (#[trigger] self.compilation.chunk_group_by_ukey@[h]).kind == ChunkGroupKind::Normal
                    implies group_linked(&self.compilation, h) by {
                    assert(self.compilation.chunk_group_by_ukey@[h].kind == ChunkGroupKind::Entrypoint);
                }
            }
        }
        Ok(input)
    }

    /// Whether a chunk that `c` relates to in `edges` also holds module `m`.
    pub open spec fn has_superior(
        cg: ChunkGraph,
        edges: Set<(usize, usize)>,
        num_chunks: nat,
        c: ChunkUkey,
        m: ModuleIdentifier,
    ) -> bool {
        exists|o: ChunkUkey|
            o < num_chunks && cg.module_chunks(m).contains(o) && #[trigger] edges.contains((c, o))
    }

    /// Builds the chunks: prepares the entrypoints, works off the queue, takes out of each
    /// chunk the modules that a chunk it was split from holds too, and gives the chunks of
    /// each entrypoint its runtime.
    pub fn split(&mut self) -> (result: Result<(), SplitError>)
        requires
            old(self).inv(),
        ensures
            final(self).inv(),
            result is Ok <==> Self::entries_resolve(&old(self).compilation),
            old(self).is_fresh() && result is Ok ==> split_outcome(
                &final(self).compilation,
                final(self).edges(),
                final(self).split_point_modules@,
                final(self).split_from@,
            ),
            old(self).is_fresh() && result is Ok ==> entries_rooted(&final(self).compilation),
            result is Err ==> {
                &&& final(self).compilation.module_graph == old(self).compilation.module_graph
                &&& final(self).compilation.entries == old(self).compilation.entries
                &&& final(self).queue == old(self).queue
                &&& final(self).queue_delayed == old(self).queue_delayed
                &&& final(self).split_point_modules == old(self).split_point_modules
                &&& final(self).chunk_relation_graph == old(self).chunk_relation_graph
                &&& final(self).next_free_module_pre_order_index == old(self).next_free_module_pre_order_index
                &&& final(self).next_free_module_post_order_index == old(self).next_free_module_post_order_index
            },
            result is Ok ==> exists|trace: Seq<CodeSplitter>| #[trigger] Self::split_run(old(self), final(self), trace),
    {
        let ghost start = *self;
        let ghost fresh = self.is_fresh();
        let input = match self.prepare_input_entrypoints_and_modules() {
            Ok(input) => input,
            Err(error) => {
                return Err(error);
            },
        };
        let ghost prep = *self;
        let ghost exp = input_upto(&start.compilation, start.compilation.num_groups(), start.compilation.entries.len() as nat);
        let mut k: usize = 0;
        while k < input.len()
            invariant
                self.inv(),
                k <= input.len(),
                forall|x: int| 0 <= x < input.len() ==> self.input_ok(#[trigger] input@[x]),
                self.compilation == prep.compilation,
                self.queue_delayed == prep.queue_delayed,
                self.split_point_modules == prep.split_point_modules,
                self.split_from == prep.split_from,
                self.chunk_relation_graph == prep.chunk_relation_graph,
                self.next_free_module_pre_order_index == prep.next_free_module_pre_order_index,
                self.next_free_module_post_order_index == prep.next_free_module_post_order_index,
                fresh ==> prep.prepared_but(Seq::empty(), 0) && prep.input_covers_but(input@, Seq::empty(), 0),
                fresh ==> forall|i: int| 0 <= i < self.queue.len() ==> prep.is_entry_item(#[trigger] self.queue@[i]),
                fresh ==> prep.queue_covers(self.queue@, input@, k as int, 0),
                input@.len() == exp.len(),
                forall|x: int| 0 <= x < exp.len() ==> (#[trigger] input@[x]).0 == exp[x].0 && input@[x].1@ == exp[x].1,
                self.queue@ == prep.queue@ + prep.entry_items(exp.take(k as int)),
            decreases input.len() - k,
        {
            let chunk_group = input[k].0;
            proof {
                assert(self.input_ok(input@[k as int]));
                assert(self.compilation.group_wf(self.compilation.chunk_group_by_ukey@[chunk_group as int]));
            }
            let chunk = self.compilation.chunk_group_by_ukey[chunk_group].get_entry_point_chunk();
            let mut j: usize = 0;
            while j < input[k].1.len()
                invariant
                    self.inv(),
                    k < input.len(),
                    j <= input@[k as int].1.len(),
                    chunk_group == input@[k as int].0,
                    chunk < self.num_chunks(),
                    chunk == prep.entry_chunk(chunk_group),
                    self.input_ok(input@[k as int]),
                    forall|x: int| 0 <= x < input.len() ==> self.input_ok(#[trigger] input@[x]),
                    self.compilation == prep.compilation,
                    self.queue_delayed == prep.queue_delayed,
                    self.split_point_modules == prep.split_point_modules,
                    self.split_from == prep.split_from,
                    self.chunk_relation_graph == prep.chunk_relation_graph,
                    self.next_free_module_pre_order_index == prep.next_free_module_pre_order_index,
                    self.next_free_module_post_order_index == prep.next_free_module_post_order_index,
                    fresh ==> prep.prepared_but(Seq::empty(), 0) && prep.input_covers_but(input@, Seq::empty(), 0),
                    fresh ==> forall|i: int| 0 <= i < self.queue.len() ==> prep.is_entry_item(#[trigger] self.queue@[i]),
                    fresh ==> prep.queue_covers(self.queue@, input@, k as int, j as int),
                    input@.len() == exp.len(),
                    forall|x: int| 0 <= x < exp.len() ==> (#[trigger] input@[x]).0 == exp[x].0 && input@[x].1@ == exp[x].1,
                    self.queue@ == prep.queue@ + prep.entry_items(exp.take(k as int)) + Seq::new(
                        j as nat,
                        |jj: int|
                            QueueItem {
                                action: QueueAction::AddAndEnter,
                                chunk: prep.entry_chunk(exp[k as int].0),
                                chunk_group: exp[k as int].0,
                                module_identifier: exp[k as int].1[jj],
                            },
                    ),
                decreases input@[k as int].1.len() - j,
            {
                let ghost before = self.queue@;
                let ghost item = QueueItem {
                    action: QueueAction::AddAndEnter,
                    chunk,
                    chunk_group,
                    module_identifier: input@[k as int].1@[j as int],
                };
                self.queue.push(
                    QueueItem {
                        action: QueueAction::AddAndEnter,
                        chunk,
                        chunk_group,
                        module_identifier: input[k].1[j],
                    },
                );
                proof {
                    assert(input@[k as int] == input@[k as int]);
                    assert(input@[k as int].1@ == exp[k as int].1);
                    assert(self.queue@ =~= prep.queue@ + prep.entry_items(exp.take(k as int)) + Seq::new(
                        (j + 1) as nat,
                        |jj: int|
                            QueueItem {
                                action: QueueAction::AddAndEnter,
                                chunk: prep.entry_chunk(exp[k as int].0),
                                chunk_group: exp[k as int].0,
                                module_identifier: exp[k as int].1[jj],
                            },
                    ));
                    assert(input@[k as int].1@[j as int] < self.num_modules());
                    assert forall|i: int| 0 <= i < self.queue.len() implies self.item_ok(
                        #[trigger] self.queue@[i],
                    ) by {
                        if i < before.len() {
                            assert(self.queue@[i] == before[i]);
                        }
                    }
                    if fresh {
                        assert(self.queue@ == before.push(item));
                        assert(prep.listed_are_entries(input@));
                        assert(prep.is_entry_of(input@[k as int].0, input@[k as int].1@[j as int]));
                        assert(prep.is_entry_item(item));
                        assert forall|i: int| 0 <= i < self.queue.len() implies prep.is_entry_item(#[trigger] self.queue@[i]) by {
                            if i < before.len() {
                                assert(self.queue@[i] == before[i]);
                            }
                        }
                        assert forall|kk: int, jj: int|
                            0 <= kk < input@.len() && 0 <= jj < input@[kk].1.len() && (kk < k || (kk == k && jj < j + 1))
                            implies #[trigger] Self::has_adding(self.queue@, prep.entry_chunk(input@[kk].0), input@[kk].1@[jj]) by {
                            if kk == k && jj == j {
                                assert(Self::adds(self.queue@[before.len() as int], prep.entry_chunk(input@[kk].0), input@[kk].1@[jj]));
                            } else {
                                assert(Self::has_adding(before, prep.entry_chunk(input@[kk].0), input@[kk].1@[jj]));
                                let w = choose|w: int| 0 <= w < before.len() && Self::adds(#[trigger] before[w], prep.entry_chunk(input@[kk].0), input@[kk].1@[jj]);
                                assert(self.queue@[w] == before[w]);
                            }
                        }
                    }
                }
                j = j + 1;
            }
            proof {
                let t = exp.take(k as int + 1);
                assert(t.drop_last() =~= exp.take(k as int));
                assert(t.last() == exp[k as int]);
                assert(self.queue@ =~= prep.queue@ + prep.entry_items(exp.take(k as int + 1)));
            }
            k = k + 1;
        }
        let mut pending: Vec<QueueItem> = Vec::new();
        std::mem::swap(&mut pending, &mut self.queue);
        let ghost all = pending@;
        proof {
            assert(exp.take(exp.len() as int) =~= exp);
            assert(all == start.queue@ + prep.entry_items(exp));
        }
        let mut reversed: Vec<QueueItem> = Vec::new();
        while pending.len() > 0
            invariant
                self.inv(),
                self.queue@.len() == 0,
                forall|i: int| 0 <= i < pending.len() ==> self.item_ok(#[trigger] pending@[i]),
                forall|i: int| 0 <= i < reversed.len() ==> self.item_ok(#[trigger] reversed@[i]),
                self.compilation == prep.compilation,
                self.queue_delayed == prep.queue_delayed,
                self.split_point_modules == prep.split_point_modules,
                self.split_from == prep.split_from,
                self.chunk_relation_graph == prep.chunk_relation_graph,
                self.next_free_module_pre_order_index == prep.next_free_module_pre_order_index,
                self.next_free_module_post_order_index == prep.next_free_module_post_order_index,
                fresh ==> forall|i: int| 0 <= i < pending.len() ==> prep.is_entry_item(#[trigger] pending@[i]),
                fresh ==> forall|i: int| 0 <= i < reversed.len() ==> prep.is_entry_item(#[trigger] reversed@[i]),
                fresh ==> forall|kk: int, jj: int|
                    0 <= kk < input@.len() && 0 <= jj < input@[kk].1.len()
                    ==> #[trigger] Self::has_adding(pending@, prep.entry_chunk(input@[kk].0), input@[kk].1@[jj])
                        || Self::has_adding(reversed@, prep.entry_chunk(input@[kk].0), input@[kk].1@[jj]),
                pending@.len() <= all.len(),
                pending@ == all.subrange(0, pending@.len() as int),
                reversed@ == Seq::new((all.len() - pending@.len()) as nat, |x: int| all[all.len() - 1 - x]),
            decreases pending.len(),
        {
            let ghost pending_before = pending@;
            let ghost reversed_before = reversed@;
            match pending.pop() {
                Some(item) => {
                    reversed.push(item);
                    proof {
                        assert(pending@ =~= all.subrange(0, pending@.len() as int));
                        assert(reversed@ =~= Seq::new((all.len() - pending@.len()) as nat, |x: int| all[all.len() - 1 - x]));
                        assert forall|i: int| 0 <= i < reversed.len() implies self.item_ok(#[trigger] reversed@[i]) by {
                            if i < reversed_before.len() {
                                assert(reversed@[i] == reversed_before[i]);
                            }
                        }
                        if fresh {
                            assert forall|i: int| 0 <= i < reversed.len() implies prep.is_entry_item(#[trigger] reversed@[i]) by {
                                if i < reversed_before.len() {
                                    assert(reversed@[i] == reversed_before[i]);
                                } else {
                                    assert(reversed@[i] == pending_before[pending_before.len() - 1]);
                                }
                            }
                            assert forall|i: int| 0 <= i < pending.len() implies prep.is_entry_item(#[trigger] pending@[i]) by {
                                assert(pending@[i] == pending_before[i]);
                            }
                            assert forall|kk: int, jj: int|
                                0 <= kk < input@.len() && 0 <= jj < input@[kk].1.len()
                                implies #[trigger] Self::has_adding(pending@, prep.entry_chunk(input@[kk].0), input@[kk].1@[jj])
                                    || Self::has_adding(reversed@, prep.entry_chunk(input@[kk].0), input@[kk].1@[jj]) by {
                                let c = prep.entry_chunk(input@[kk].0);
                                let m = input@[kk].1@[jj];
                                if Self::has_adding(pending_before, c, m) {
                                    let w = choose|w: int| 0 <= w < pending_before.len() && Self::adds(#[trigger] pending_before[w], c, m);
                                    if w < pending.len() {
                                        assert(Self::adds(pending@[w], c, m));
                                    } else {
                                        assert(Self::adds(reversed@[reversed_before.len() as int], c, m));
                                    }
                                } else {
                                    assert(Self::has_adding(reversed_before, c, m));
                                    let w = choose|w: int| 0 <= w < reversed_before.len() && Self::adds(#[trigger] reversed_before[w], c, m);
                                    assert(Self::adds(reversed@[w], c, m));
                                }
                            }
                        }
                    }
                },
                None => {},
            }
        }
        self.queue = reversed;
        proof {
            assert(self.queue@ =~= rev(start.queue@ + prep.entry_items(exp)));
            if fresh {
                assert forall|kk: int, jj: int|
                    0 <= kk < input@.len() && 0 <= jj < input@[kk].1.len() && (kk < input@.len() || (kk == input@.len() && jj < 0))
                    implies #[trigger] Self::has_adding(self.queue@, prep.entry_chunk(input@[kk].0), input@[kk].1@[jj]) by {
                    assert(!Self::has_adding(pending@, prep.entry_chunk(input@[kk].0), input@[kk].1@[jj]));
                }
                self.lemma_start_law(&prep, input@);
            }
        }
        proof {
            if fresh {
                assert(entries_rooted(&self.compilation));
            }
        }
        proof {
            if fresh {
                self.lemma_indexed_frame(&prep);
                self.lemma_id_named_carry(&prep, 0);
                self.lemma_names_frame(&prep);
                self.lemma_links_frame(&prep);
                assert(pre_indexed(&self.compilation) =~= pre_indexed(&prep.compilation));
                assert(post_indexed(&self.compilation) =~= post_indexed(&prep.compilation));
            }
        }
        let ghost s0 = *self;
        let ghost mut trace: Seq<CodeSplitter> = seq![*self];
        while !self.queue.is_empty() || !self.queue_delayed.is_empty()
            invariant
                Self::is_full_run(trace),
                trace[0] == s0,
                trace.last() == *self,
                self.inv(),
                fresh ==> self.law(None),
                fresh ==> self.law_links(),
                fresh ==> self.law_counts(),
                fresh ==> self.law_names(),
                fresh ==> self.law_indexed(),
                fresh ==> self.law_chunk_ids(),
                fresh ==> entries_rooted(&self.compilation),
            decreases
                self.measure_splits(),
                self.measure_connections(),
                self.total_queued(),
                if self.queue@.len() == 0 {
                    1nat
                } else {
                    0nat
                },
        {
            let ghost before_queue = *self;
            self.process_queue();
            proof {
                let t2 = choose|t2: Seq<CodeSplitter>| Self::is_run(t2) && t2[0] == before_queue && #[trigger] t2.last() == *self;
                Self::lemma_run_concat(trace, t2);
                trace = trace + t2.drop_first();
                if fresh {
                    lemma_entries_rooted_frame(&before_queue.compilation, &self.compilation, self.compilation.entries.len() as int, self.compilation.entries.len() as int);
                }
            }
            if self.queue.is_empty() && !self.queue_delayed.is_empty() {
                let ghost before = *self;
                let mut delayed: Vec<QueueItem> = Vec::new();
                std::mem::swap(&mut delayed, &mut self.queue_delayed);
                self.queue = delayed;
                proof {
                    if fresh {
                        self.lemma_links_frame(&before);
                        self.lemma_names_frame(&before);
                        self.lemma_indexed_frame(&before);
                        self.lemma_id_named_carry(&before, 0);
                    }
                    assert(pre_indexed(&self.compilation) =~= pre_indexed(&before.compilation));
                    assert(post_indexed(&self.compilation) =~= post_indexed(&before.compilation));
                    Self::lemma_run_swap(trace, *self);
                    trace = trace.push(*self);
                    if fresh {
                        self.lemma_swap_law(&before);
                    }
                }
            }
        }
        let ghost s1 = *self;
        self.remove_available_modules();
        let ghost s2 = *self;
        self.assign_entrypoint_runtimes();
        proof {
            assert forall|ch: int| 0 <= ch < s1.num_chunks() implies (#[trigger] self.compilation.chunk_by_ukey@[ch]).runtime_names()
                == s1.compilation.chunk_by_ukey@[ch].runtime_names() + Self::entry_runtimes(&s1.compilation, ch as usize) by {
                assert(Self::entry_runtimes(&s2.compilation, ch as usize) =~= Self::entry_runtimes(&s1.compilation, ch as usize));
            }
            Self::lemma_entry_items_same(&s0, &prep, exp);
            assert(s0.queue@ == rev(start.queue@ + s0.entry_items(exp)));
            assert(trace.last() == s1);
            assert(Self::split_run(&start, self, trace));
            if fresh {
                assert(self.finish_step(&s1, &s2));
                self.lemma_outcome_links(&s1, &s2);
                assert(entries_frame(&s1.compilation, &s2.compilation));
                assert(entries_frame(&s2.compilation, &self.compilation));
                lemma_entries_frame_trans(&s1.compilation, &s2.compilation, &self.compilation);
                lemma_entries_rooted_frame(&s1.compilation, &self.compilation, s1.compilation.entries.len() as int, s1.compilation.entries.len() as int);
            }
        }
        Ok(())
    }

    /// Takes out of each chunk the modules that a chunk it relates to holds too.
    fn remove_available_modules(&mut self)
        requires
            old(self).inv(),
        ensures
            final(self).split_from == old(self).split_from,
            final(self).next_free_module_pre_order_index == old(self).next_free_module_pre_order_index,
            final(self).next_free_module_post_order_index == old(self).next_free_module_post_order_index,
            final(self).inv(),
            final(self).queue == old(self).queue,
            final(self).queue_delayed == old(self).queue_delayed,
            final(self).split_point_modules == old(self).split_point_modules,
            final(self).chunk_relation_graph == old(self).chunk_relation_graph,
            final(self).compilation.chunk_by_ukey == old(self).compilation.chunk_by_ukey,
            final(self).compilation.chunk_group_by_ukey == old(self).compilation.chunk_group_by_ukey,
            final(self).compilation.module_graph == old(self).compilation.module_graph,
            final(self).compilation.entries == old(self).compilation.entries,
            final(self).compilation.named_chunks == old(self).compilation.named_chunks,
            final(self).compilation.named_chunk_groups == old(self).compilation.named_chunk_groups,
            final(self).compilation.entrypoints == old(self).compilation.entrypoints,
            final(self).compilation.chunk_graph.split_points() == old(self).compilation.chunk_graph.split_points(),
            forall|c: ChunkUkey| #[trigger] final(self).compilation.chunk_graph.has_chunk(c) == old(self).compilation.chunk_graph.has_chunk(c),
            forall|c: ChunkUkey| #[trigger] final(self).compilation.chunk_graph.entry_modules(c) == old(self).compilation.chunk_graph.entry_modules(c),
            forall|c: ChunkUkey, m: ModuleIdentifier|
                c < old(self).num_chunks() ==> (#[trigger] final(self).compilation.chunk_graph.chunk_modules(c).contains(m) <==> {
                    &&& old(self).compilation.chunk_graph.chunk_modules(c).contains(m)
                    &&& !Self::has_superior(
                        old(self).compilation.chunk_graph,
                        relation_edges(old(self).chunk_relation_graph),
                        old(self).num_chunks(),
                        c,
                        m,
                    )
                }),
    {
        let ghost start = *self;
        let ghost cg0 = self.compilation.chunk_graph;
        let ghost edges = relation_edges(self.chunk_relation_graph);
        let num_chunks = self.compilation.chunk_by_ukey.len();
        let num_modules = self.compilation.module_graph.modules.len();
        let mut modules_to_be_removed_in_chunk: Vec<(ChunkUkey, ModuleIdentifier)> = Vec::new();
        let mut c: usize = 0;
        while c < num_chunks
            invariant
                *self == start,
                start.inv(),
                cg0 == start.compilation.chunk_graph,
                edges == relation_edges(start.chunk_relation_graph),
                num_chunks == start.num_chunks(),
                num_modules == start.num_modules(),
                c <= num_chunks,
                forall|i: int| 0 <= i < modules_to_be_removed_in_chunk.len() ==> {
                    let p = #[trigger] modules_to_be_removed_in_chunk@[i];
                    &&& p.0 < num_chunks
                    &&& cg0.chunk_modules(p.0).contains(p.1)
                    &&& Self::has_superior(cg0, edges, num_chunks as nat, p.0, p.1)
                },
                forall|x: ChunkUkey, y: ModuleIdentifier|
                    x < c && #[trigger] cg0.chunk_modules(x).contains(y) && Self::has_superior(cg0, edges, num_chunks as nat, x, y)
                        ==> modules_to_be_removed_in_chunk@.contains((x, y)),
            decreases num_chunks - c,
        {
            let mut m: usize = 0;
            while m < num_modules
                invariant
                    *self == start,
                    start.inv(),
                    cg0 == start.compilation.chunk_graph,
                    edges == relation_edges(start.chunk_relation_graph),
                    num_chunks == start.num_chunks(),
                    num_modules == start.num_modules(),
                    c < num_chunks,
                    m <= num_modules,
                    forall|i: int| 0 <= i < modules_to_be_removed_in_chunk.len() ==> {
                        let p = #[trigger] modules_to_be_removed_in_chunk@[i];
                        &&& p.0 < num_chunks
                        &&& cg0.chunk_modules(p.0).contains(p.1)
                        &&& Self::has_superior(cg0, edges, num_chunks as nat, p.0, p.1)
                    },
                    forall|x: ChunkUkey, y: ModuleIdentifier|
                        (x < c || (x == c && y < m)) && #[trigger] cg0.chunk_modules(x).contains(y) && Self::has_superior(cg0, edges, num_chunks as nat, x, y)
                            ==> modules_to_be_removed_in_chunk@.contains((x, y)),
                decreases num_modules - m,
            {
                proof {
                    assert(cg0.has_chunk(c));
                }
                if self.compilation.chunk_graph.is_module_in_chunk(&m, c) {
                    proof {
                        assert(cg0.has_module(m));
                    }
                    let mut has_superior = false;
                    let mut other: usize = 0;
                    while other < num_chunks
                        invariant
                            *self == start,
                            cg0 == start.compilation.chunk_graph,
                            edges == relation_edges(start.chunk_relation_graph),
                            num_chunks == start.num_chunks(),
                            cg0.has_module(m),
                            other <= num_chunks,
                            has_superior <==> exists|o: ChunkUkey|
                                o < other && cg0.module_chunks(m).contains(o) && #[trigger] edges.contains((c, o)),
                        decreases num_chunks - other,
                    {
                        if self.compilation.chunk_graph.is_chunk_of_module(&m, other)
                            && relation_contains_edge(&self.chunk_relation_graph, c, other) {
                            has_superior = true;
                        }
                        proof {
                            if cg0.module_chunks(m).contains(other) && edges.contains((c, other)) {
                                assert(has_superior);
                            }
                            if has_superior {
                                if !(exists|o: ChunkUkey| o < other && cg0.module_chunks(m).contains(o) && #[trigger] edges.contains((c, o))) {
                                    assert(cg0.module_chunks(m).contains(other) && edges.contains((c, other)));
                                }
                            }
                        }
                        other = other + 1;
                    }
                    if has_superior {
                        let ghost before = modules_to_be_removed_in_chunk@;
                        modules_to_be_removed_in_chunk.push((c, m));
                        proof {
                            assert forall|i: int| 0 <= i < modules_to_be_removed_in_chunk.len() implies {
                                let p = #[trigger] modules_to_be_removed_in_chunk@[i];
                                &&& p.0 < num_chunks
                                &&& cg0.chunk_modules(p.0).contains(p.1)
                                &&& Self::has_superior(cg0, edges, num_chunks as nat, p.0, p.1)
                            } by {
                                if i < before.len() {
                                    assert(modules_to_be_removed_in_chunk@[i] == before[i]);
                                }
                            }
                            assert forall|x: ChunkUkey, y: ModuleIdentifier|
                                (x < c || (x == c && y < m + 1)) && #[trigger] cg0.chunk_modules(x).contains(y) && Self::has_superior(cg0, edges, num_chunks as nat, x, y)
                                implies modules_to_be_removed_in_chunk@.contains((x, y)) by {
                                if x == c && y == m {
                                    assert(modules_to_be_removed_in_chunk@[before.len() as int] == (x, y));
                                } else {
                                    assert(before.contains((x, y)));
                                    let i = choose|i: int| 0 <= i < before.len() && before[i] == (x, y);
                                    assert(modules_to_be_removed_in_chunk@[i] == (x, y));
                                }
                            }
                        }
                    } else {
                        proof {
                            assert(!Self::has_superior(cg0, edges, num_chunks as nat, c, m));
                        }
                    }
                }
                m = m + 1;
            }
            c = c + 1;
        }
        let mut k: usize = 0;
        while k < modules_to_be_removed_in_chunk.len()
            invariant
                start.inv(),
                cg0 == start.compilation.chunk_graph,
                edges == relation_edges(start.chunk_relation_graph),
                num_chunks == start.num_chunks(),
                k <= modules_to_be_removed_in_chunk.len(),
                self.queue == start.queue,
                self.queue_delayed == start.queue_delayed,
                self.split_point_modules == start.split_point_modules,
                self.split_from == start.split_from,
                self.chunk_relation_graph == start.chunk_relation_graph,
                self.next_free_module_pre_order_index == start.next_free_module_pre_order_index,
                self.next_free_module_post_order_index == start.next_free_module_post_order_index,
                self.compilation.chunk_by_ukey == start.compilation.chunk_by_ukey,
                self.compilation.chunk_group_by_ukey == start.compilation.chunk_group_by_ukey,
                self.compilation.module_graph == start.compilation.module_graph,
                self.compilation.entries == start.compilation.entries,
                self.compilation.named_chunks == start.compilation.named_chunks,
                self.compilation.named_chunk_groups == start.compilation.named_chunk_groups,
                self.compilation.entrypoints == start.compilation.entrypoints,
                self.compilation.chunk_graph.split_points() == cg0.split_points(),
                self.compilation.chunk_graph.chunk_graph_chunk_by_chunk_ukey@.dom() == cg0.chunk_graph_chunk_by_chunk_ukey@.dom(),
                self.compilation.chunk_graph.chunk_graph_module_by_module_identifier@.dom() == cg0.chunk_graph_module_by_module_identifier@.dom(),
                self.compilation.chunk_graph.wf(start.num_chunks(), start.num_modules(), start.compilation.num_groups()),
                forall|x: ChunkUkey| #[trigger] self.compilation.chunk_graph.entry_modules(x) == cg0.entry_modules(x),
                forall|i: int| 0 <= i < modules_to_be_removed_in_chunk.len() ==> {
                    let p = #[trigger] modules_to_be_removed_in_chunk@[i];
                    &&& p.0 < num_chunks
                    &&& cg0.chunk_modules(p.0).contains(p.1)
                    &&& Self::has_superior(cg0, edges, num_chunks as nat, p.0, p.1)
                },
                forall|x: ChunkUkey, y: ModuleIdentifier|
                    #[trigger] self.compilation.chunk_graph.chunk_modules(x).contains(y) <==> (cg0.chunk_modules(x).contains(y)
                        && !modules_to_be_removed_in_chunk@.subrange(0, k as int).contains((x, y))),
            decreases modules_to_be_removed_in_chunk.len() - k,
        {
            let (c, m) = modules_to_be_removed_in_chunk[k];
            proof {
                let p = modules_to_be_removed_in_chunk@[k as int];
                assert(cg0.has_chunk(c));
                assert(cg0.has_module(m));
            }
            let ghost cg1 = self.compilation.chunk_graph;
            self.compilation.chunk_graph.disconnect_chunk_and_module(c, m);
            proof {
                let rs = modules_to_be_removed_in_chunk@;
                assert(rs.subrange(0, k + 1) =~= rs.subrange(0, k as int).push((c, m)));
                assert forall|x: ChunkUkey| #[trigger] self.compilation.chunk_graph.entry_modules(x) == cg0.entry_modules(x) by {
                    assert(cg1.entry_modules(x) == cg0.entry_modules(x));
                }
                assert forall|x: ChunkUkey, y: ModuleIdentifier|
                    #[trigger] self.compilation.chunk_graph.chunk_modules(x).contains(y) <==> (cg0.chunk_modules(x).contains(y)
                        && !rs.subrange(0, k + 1).contains((x, y))) by {
                    assert(cg1.chunk_modules(x).contains(y) <==> (cg0.chunk_modules(x).contains(y)
                        && !rs.subrange(0, k as int).contains((x, y))));
                    let s0 = rs.subrange(0, k as int);
                    let s1 = rs.subrange(0, k + 1);
                    assert(self.compilation.chunk_graph.chunk_modules(x) == if x == c {
                        cg1.chunk_modules(x).remove(m)
                    } else {
                        cg1.chunk_modules(x)
                    });
                    if (x, y) == (c, m) {
                        assert(s1[k as int] == (c, m));
                    } else {
                        if s1.contains((x, y)) {
                            let i = choose|i: int| 0 <= i < s1.len() && s1[i] == (x, y);
                            assert(s0[i] == (x, y));
                        }
                        if s0.contains((x, y)) {
                            let i = choose|i: int| 0 <= i < s0.len() && s0[i] == (x, y);
                            assert(s1[i] == (x, y));
                        }
                    }
                }
            }
            k = k + 1;
        }
        proof {
            let rs = modules_to_be_removed_in_chunk@;
            assert(rs.subrange(0, rs.len() as int) =~= rs);
            assert forall|c: ChunkUkey, m: ModuleIdentifier|
                c < start.num_chunks() implies (#[trigger] self.compilation.chunk_graph.chunk_modules(c).contains(m) <==> {
                    &&& cg0.chunk_modules(c).contains(m)
                    &&& !Self::has_superior(cg0, edges, start.num_chunks(), c, m)
                }) by {
                if rs.contains((c, m)) {
                    let i = choose|i: int| 0 <= i < rs.len() && rs[i] == (c, m);
                    assert(Self::has_superior(cg0, edges, num_chunks as nat, rs[i].0, rs[i].1));
                }
            }
            assert forall|x: ChunkUkey| #[trigger] self.compilation.chunk_graph.has_chunk(x) == cg0.has_chunk(x) by {
            }
            assert forall|x: ChunkUkey| x < self.num_chunks() implies #[trigger] self.compilation.chunk_graph.has_chunk(x) by {
                assert(cg0.has_chunk(x));
            }
            assert(self.compilation.wf());
            assert(self.pre_numbered() =~= start.pre_numbered());
            assert(self.post_numbered() =~= start.post_numbered());
            let cg = self.compilation.chunk_graph;
            assert forall|x: usize, y: usize|
                x < self.num_chunks() && cg.has_chunk(x) && #[trigger] cg.chunk_modules(x).contains(y)
                implies y < self.num_modules() by {
                assert(cg.has_module(y));
            }
            lemma_total_connections_bound(cg, self.num_chunks(), self.num_modules());
            assert(Self::extends(self, &start));
            Self::lemma_items_carry_over(self, &start, start.queue@);
            Self::lemma_items_carry_over(self, &start, start.queue_delayed@);
        }
    }

    /// The runtime names that entrypoints among the first `g` groups, and the first `k`
    /// chunks of group `g`, give to chunk `chunk`.
    pub open spec fn entry_runtimes_upto(
        c: &Compilation,
        chunk: ChunkUkey,
        g: int,
        k: int,
    ) -> Set<Seq<char>> {
        Set::new(
            |r: Seq<char>|
                exists|h: int, i: int|
                    {
                        &&& 0 <= h < c.num_groups()
                        &&& (h < g || (h == g && i < k))
                        &&& 0 <= i < c.chunk_group_by_ukey@[h].chunks.len()
                        &&& c.chunk_group_by_ukey@[h].kind == ChunkGroupKind::Entrypoint
                        &&& #[trigger] c.chunk_group_by_ukey@[h].chunks@[i] == chunk
                        &&& c.chunk_group_by_ukey@[h].runtime.unwrap()@ == r
                    },
        )
    }

    /// The runtime names that the entrypoints holding chunk `chunk` give to it.
    pub open spec fn entry_runtimes(c: &Compilation, chunk: ChunkUkey) -> Set<Seq<char>> {
        Self::entry_runtimes_upto(c, chunk, c.num_groups() as int, 0)
    }

    /// Gives every chunk of every entrypoint the runtime of that entrypoint.
    fn assign_entrypoint_runtimes(&mut self)
        requires
            old(self).inv(),
        ensures
            final(self).split_from == old(self).split_from,
            final(self).next_free_module_pre_order_index == old(self).next_free_module_pre_order_index,
            final(self).next_free_module_post_order_index == old(self).next_free_module_post_order_index,
            final(self).inv(),
            final(self).queue == old(self).queue,
            final(self).queue_delayed == old(self).queue_delayed,
            final(self).split_point_modules == old(self).split_point_modules,
            final(self).chunk_relation_graph == old(self).chunk_relation_graph,
            final(self).compilation.chunk_graph == old(self).compilation.chunk_graph,
            final(self).compilation.chunk_group_by_ukey == old(self).compilation.chunk_group_by_ukey,
            final(self).compilation.module_graph == old(self).compilation.module_graph,
            final(self).compilation.entries == old(self).compilation.entries,
            final(self).compilation.named_chunks == old(self).compilation.named_chunks,
            final(self).compilation.named_chunk_groups == old(self).compilation.named_chunk_groups,
            final(self).compilation.entrypoints == old(self).compilation.entrypoints,
            final(self).num_chunks() == old(self).num_chunks(),
            forall|c: int|
                0 <= c < old(self).num_chunks() ==> {
                    let nc = #[trigger] final(self).compilation.chunk_by_ukey@[c];
                    let oc = old(self).compilation.chunk_by_ukey@[c];
                    &&& nc.ukey == oc.ukey
                    &&& nc.name == oc.name
                    &&& nc.id == oc.id
                    &&& nc.groups == oc.groups
                    &&& nc.runtime_names() == oc.runtime_names() + Self::entry_runtimes(
                        &old(self).compilation,
                        c as usize,
                    )
                },
    {
        let ghost start = *self;
        let num_groups = self.compilation.chunk_group_by_ukey.len();
        let mut g: usize = 0;
        while g < num_groups
            invariant
                start.inv(),
                g <= num_groups,
                num_groups == start.compilation.num_groups(),
                self.queue == start.queue,
                self.queue_delayed == start.queue_delayed,
                self.split_point_modules == start.split_point_modules,
                self.split_from == start.split_from,
                self.chunk_relation_graph == start.chunk_relation_graph,
                self.next_free_module_pre_order_index == start.next_free_module_pre_order_index,
                self.next_free_module_post_order_index == start.next_free_module_post_order_index,
                self.compilation.chunk_graph == start.compilation.chunk_graph,
                self.compilation.chunk_group_by_ukey == start.compilation.chunk_group_by_ukey,
                self.compilation.module_graph == start.compilation.module_graph,
                self.compilation.entries == start.compilation.entries,
                self.compilation.named_chunks == start.compilation.named_chunks,
                self.compilation.named_chunk_groups == start.compilation.named_chunk_groups,
                self.compilation.entrypoints == start.compilation.entrypoints,
                self.num_chunks() == start.num_chunks(),
                forall|c: int|
                    0 <= c < start.num_chunks() ==> {
                        let nc = #[trigger] self.compilation.chunk_by_ukey@[c];
                        let oc = start.compilation.chunk_by_ukey@[c];
                        &&& nc.ukey == oc.ukey
                        &&& nc.name == oc.name
                        &&& nc.id == oc.id
                        &&& nc.groups == oc.groups
                        &&& nc.runtime_names() == oc.runtime_names() + Self::entry_runtimes_upto(
                            &start.compilation,
                            c as usize,
                            g as int,
                            0,
                        )
                    },
            decreases num_groups - g,
        {
            proof {
                assert(start.compilation.group_wf(start.compilation.chunk_group_by_ukey@[g as int]));
            }
            match self.compilation.chunk_group_by_ukey[g].kind {
                ChunkGroupKind::Entrypoint => {
                    let runtime: String = match &self.compilation.chunk_group_by_ukey[g].runtime {
                        Some(runtime) => runtime.clone(),
                        None => String::new(),
                    };
                    let num = self.compilation.chunk_group_by_ukey[g].chunks.len();
                    let mut k: usize = 0;
                    while k < num
                        invariant
                            start.inv(),
                            g < num_groups,
                            num_groups == start.compilation.num_groups(),
                            k <= num,
                            num == start.compilation.chunk_group_by_ukey@[g as int].chunks.len(),
                            start.compilation.chunk_group_by_ukey@[g as int].kind == ChunkGroupKind::Entrypoint,
                            runtime@ == start.compilation.chunk_group_by_ukey@[g as int].runtime.unwrap()@,
                            self.queue == start.queue,
                            self.queue_delayed == start.queue_delayed,
                            self.split_point_modules == start.split_point_modules,
                            self.split_from == start.split_from,
                            self.chunk_relation_graph == start.chunk_relation_graph,
                            self.next_free_module_pre_order_index == start.next_free_module_pre_order_index,
                            self.next_free_module_post_order_index == start.next_free_module_post_order_index,
                            self.compilation.chunk_graph == start.compilation.chunk_graph,
                            self.compilation.module_graph == start.compilation.module_graph,
                            self.compilation.entries == start.compilation.entries,
                            self.compilation.named_chunks == start.compilation.named_chunks,
                            self.compilation.named_chunk_groups == start.compilation.named_chunk_groups,
                            self.compilation.entrypoints == start.compilation.entrypoints,
                            self.compilation.chunk_group_by_ukey == start.compilation.chunk_group_by_ukey,
                            self.num_chunks() == start.num_chunks(),
                            forall|c: int|
                                0 <= c < start.num_chunks() ==> {
                                    let nc = #[trigger] self.compilation.chunk_by_ukey@[c];
                                    let oc = start.compilation.chunk_by_ukey@[c];
                                    &&& nc.ukey == oc.ukey
                                    &&& nc.name == oc.name
                                    &&& nc.id == oc.id
                                    &&& nc.groups == oc.groups
                                    &&& nc.runtime_names() == oc.runtime_names()
                                        + Self::entry_runtimes_upto(
                                        &start.compilation,
                                        c as usize,
                                        g as int,
                                        k as int,
                                    )
                                },
                        decreases num - k,
                    {
                        let c = self.compilation.chunk_group_by_ukey[g].chunks[k];
                        proof {
                            assert(start.compilation.group_wf(start.compilation.chunk_group_by_ukey@[g as int]));
                            assert(c < start.num_chunks());
                        }
                        let ghost before = self.compilation.chunk_by_ukey@;
                        self.compilation.chunk_by_ukey[c].add_runtime(&runtime);
                        proof {
                            assert forall|x: int| 0 <= x < start.num_chunks() implies {
                                let nc = #[trigger] self.compilation.chunk_by_ukey@[x];
                                let oc = start.compilation.chunk_by_ukey@[x];
                                &&& nc.ukey == oc.ukey
                                &&& nc.name == oc.name
                                &&& nc.id == oc.id
                                &&& nc.groups == oc.groups
                                &&& nc.runtime_names() == oc.runtime_names()
                                    + Self::entry_runtimes_upto(
                                    &start.compilation,
                                    x as usize,
                                    g as int,
                                    k + 1,
                                )
                            } by {
                                let oc = start.compilation.chunk_by_ukey@[x];
                                let a = Self::entry_runtimes_upto(&start.compilation, x as usize, g as int, k as int);
                                let b = Self::entry_runtimes_upto(&start.compilation, x as usize, g as int, k + 1);
                                if x == c as int {
                                    assert(b =~= a.insert(runtime@)) by {
                                        assert(start.compilation.chunk_group_by_ukey@[g as int].chunks@[k as int] == c);
                                        assert forall|r: Seq<char>| b.contains(r) implies a.insert(runtime@).contains(r) by {
                                            let (h, i) = choose|h: int, i: int| {
                                                &&& 0 <= h < start.compilation.num_groups()
                                                &&& (h < g || (h == g && i < k + 1))
                                                &&& 0 <= i < start.compilation.chunk_group_by_ukey@[h].chunks.len()
                                                &&& start.compilation.chunk_group_by_ukey@[h].kind == ChunkGroupKind::Entrypoint
                                                &&& #[trigger] start.compilation.chunk_group_by_ukey@[h].chunks@[i] == x as usize
                                                &&& start.compilation.chunk_group_by_ukey@[h].runtime.unwrap()@ == r
                                            };
                                            if !(h == g && i == k) {
                                                assert(a.contains(r));
                                            }
                                        }
                                    }
                                    assert(self.compilation.chunk_by_ukey@[x].runtime_names() =~= oc.runtime_names() + b);
                                } else {
                                    assert(b =~= a) by {
                                        assert forall|r: Seq<char>| b.contains(r) implies a.contains(r) by {
                                            let (h, i) = choose|h: int, i: int| {
                                                &&& 0 <= h < start.compilation.num_groups()
                                                &&& (h < g || (h == g && i < k + 1))
                                                &&& 0 <= i < start.compilation.chunk_group_by_ukey@[h].chunks.len()
                                                &&& start.compilation.chunk_group_by_ukey@[h].kind == ChunkGroupKind::Entrypoint
                                                &&& #[trigger] start.compilation.chunk_group_by_ukey@[h].chunks@[i] == x as usize
                                                &&& start.compilation.chunk_group_by_ukey@[h].runtime.unwrap()@ == r
                                            };
                                            if h == g && i == k {
                                                assert(start.compilation.chunk_group_by_ukey@[g as int].chunks@[k as int] == c);
                                            }
                                        }
                                    }
                                    assert(self.compilation.chunk_by_ukey@[x] == before[x]);
                                }
                            }
                        }
                        k = k + 1;
                    }
                    proof {
                        assert forall|x: int| 0 <= x < start.num_chunks() implies
                            Self::entry_runtimes_upto(&start.compilation, x as usize, g as int, num as int)
                            =~= #[trigger] Self::entry_runtimes_upto(&start.compilation, x as usize, g + 1, 0) by {
                        }
                    }
                },
                ChunkGroupKind::Normal => {
                    proof {
                        assert forall|x: int| 0 <= x < start.num_chunks() implies
                            Self::entry_runtimes_upto(&start.compilation, x as usize, g as int, 0)
                            =~= #[trigger] Self::entry_runtimes_upto(&start.compilation, x as usize, g + 1, 0) by {
                        }
                    }
                },
            }
            g = g + 1;
        }
        proof {
            Compilation::lemma_wf_grow_chunks(&start.compilation, &self.compilation);
            self.lemma_inv_after_growth(&start);
        }
    }

    pub fn new(compilation: Compilation) -> (splitter: CodeSplitter)
        ensures
            splitter.compilation == compilation,
            splitter.next_free_module_pre_order_index == 0,
            splitter.next_free_module_post_order_index == 0,
            splitter.queue@.len() == 0,
            splitter.queue_delayed@.len() == 0,
            relation_edges(splitter.chunk_relation_graph) == Set::<(usize, usize)>::empty(),
            relation_nodes(splitter.chunk_relation_graph) == Set::<usize>::empty(),
            splitter.split_point_modules@ == Set::<ModuleIdentifier>::empty(),
            splitter.split_from@ == Map::<ModuleIdentifier, ChunkUkey>::empty(),
            compilation.wf() ==> splitter.inv(),
    {
        let splitter = CodeSplitter {
            compilation,
            next_free_module_pre_order_index: 0,
            next_free_module_post_order_index: 0,
            queue: Vec::new(),
            queue_delayed: Vec::new(),
            chunk_relation_graph: new_relation_graph(),
            split_point_modules: HashSet::new(),
            split_from: Ghost(Map::empty()),
        };
        proof {
            if compilation.wf() {
                let cg = splitter.compilation.chunk_graph;
                assert forall|x: usize, y: usize|
                    x < splitter.num_chunks() && cg.has_chunk(x) && #[trigger] cg.chunk_modules(x).contains(y)
                    implies y < splitter.num_modules() by {
                    assert(cg.has_module(y));
                }
                lemma_total_connections_bound(cg, splitter.num_chunks(), splitter.num_modules());
            }
        }
        splitter
    }

    /// Gives the module of `item` its post-order indices, in its chunk group and overall,
    /// where it has none yet.
    #[verifier::spinoff_prover]
    fn leave_module(&mut self, item: &QueueItem)
        requires
            old(self).inv(),
            old(self).refs_ok(*item),
        ensures
            final(self).inv(),
            final(self).queue == old(self).queue,
            final(self).queue_delayed == old(self).queue_delayed,
            final(self).split_point_modules == old(self).split_point_modules,
            final(self).compilation.chunk_graph == old(self).compilation.chunk_graph,
            final(self).compilation.chunk_by_ukey == old(self).compilation.chunk_by_ukey,
            final(self).compilation.num_groups() == old(self).compilation.num_groups(),
            final(self).compilation.num_modules() == old(self).compilation.num_modules(),
            final(self).chunk_relation_graph == old(self).chunk_relation_graph,
            final(self).leave_effect(old(self), *item, old(self).queue@),
            old(self).law_links() ==> final(self).law_links(),
            old(self).law_counts() ==> final(self).law_counts(),
            old(self).law_names() ==> final(self).law_names(),
            old(self).law_indexed() ==> final(self).law_indexed(),
            old(self).law_chunk_ids() ==> final(self).law_chunk_ids(),
            final(self).delayed_grew(old(self)),
            old(self).law(Some(*item)) && old(self).item_ok(*item) && item.action == QueueAction::Leave
                ==> final(self).law(None),
            entries_frame(&old(self).compilation, &final(self).compilation),
    {
        let g = item.chunk_group;
        let m = item.module_identifier;
        let ghost old_self = *self;
        proof {
            let group = self.compilation.chunk_group_by_ukey@[g as int];
            assert(self.compilation.group_wf(group));
        }
        if self.compilation.chunk_group_by_ukey[g].module_post_order_indices.get(&m).is_none() {
            proof {
                let group = self.compilation.chunk_group_by_ukey@[g as int];
                lemma_bounded_set_len_missing(
                    group.module_post_order_indices@.dom(),
                    self.num_modules(),
                    m,
                );
            }
            let index = self.compilation.chunk_group_by_ukey[g].next_post_order_index;
            self.compilation.chunk_group_by_ukey[g].module_post_order_indices.insert(m, index);
            self.compilation.chunk_group_by_ukey[g].next_post_order_index = index + 1;
        }
        if self.compilation.module_graph.modules[m].post_order_index.is_none() {
            proof {
                lemma_bounded_set_len_missing(self.post_numbered(), self.num_modules(), m);
            }
            self.compilation.module_graph.modules[m].post_order_index = Some(
                self.next_free_module_post_order_index,
            );
            self.next_free_module_post_order_index = self.next_free_module_post_order_index + 1;
            proof {
                assert(self.post_numbered() =~= old_self.post_numbered().insert(m));
                lemma_bounded_set_len(old_self.post_numbered(), self.num_modules());
            }
        }
        proof {
            assert(self.pre_numbered() =~= old_self.pre_numbered());
            assert(self.post_numbered().len() >= old_self.post_numbered().len()) by {
                lemma_bounded_set_len(old_self.post_numbered(), self.num_modules());
                if self.post_numbered() != old_self.post_numbered() {
                    assert(self.post_numbered() =~= old_self.post_numbered().insert(m));
                }
            }
            lemma_total_connections_frame(
                self.compilation.chunk_graph,
                old_self.compilation.chunk_graph,
                self.num_chunks(),
            );
            assert forall|i: int| 0 <= i < self.queue.len() implies self.item_ok(
                #[trigger] self.queue@[i],
            ) by {
                assert(old_self.item_ok(old_self.queue@[i]));
            }
            assert forall|i: int| 0 <= i < self.queue_delayed.len() implies self.item_ok(
                #[trigger] self.queue_delayed@[i],
            ) by {
                assert(old_self.item_ok(old_self.queue_delayed@[i]));
            }
            assert forall|h: int| 0 <= h < self.compilation.num_groups() implies self.compilation.group_wf(
                #[trigger] self.compilation.chunk_group_by_ukey@[h],
            ) by {
                assert(old_self.compilation.group_wf(old_self.compilation.chunk_group_by_ukey@[h]));
                if h == g {
                    let og = old_self.compilation.chunk_group_by_ukey@[h];
                    let ng = self.compilation.chunk_group_by_ukey@[h];
                    if !og.module_post_order_indices@.contains_key(m) {
                        assert(ng.module_post_order_indices@.dom() =~= og.module_post_order_indices@.dom().insert(m));
                    }
                }
            }
            assert(self.compilation.module_graph.wf()) by {
                let mg = self.compilation.module_graph;
                let omg = old_self.compilation.module_graph;
                assert forall|i: int| 0 <= i < mg.modules.len() implies {
                    &&& (#[trigger] mg.modules@[i]).module_identifier == omg.modules@[i].module_identifier
                    &&& mg.modules@[i].dependencies == omg.modules@[i].dependencies
                    &&& mg.modules@[i].dynamic_dependencies == omg.modules@[i].dynamic_dependencies
                } by {}
                assert(mg.dependency_modules == omg.dependency_modules);
            }
            assert(self.compilation.wf());
            if old_self.law(Some(*item)) && old_self.item_ok(*item) && item.action == QueueAction::Leave {
                self.lemma_leave_law(&old_self, *item);
            }
            if old_self.law_links() {
                assert(self.law_links()) by {
                    self.lemma_links_frame(&old_self);
                }
            }
            if old_self.law_names() {
                assert(self.law_names()) by {
                    self.lemma_names_frame(&old_self);
                }
            }
            if old_self.law_chunk_ids() {
                assert(self.law_chunk_ids()) by {
                    self.lemma_id_named_carry(&old_self, 0);
                }
            }
            if old_self.law_indexed() {
                assert(self.law_indexed()) by {
                    self.lemma_indexed_frame(&old_self);
                }
            }
            assert(pre_indexed(&self.compilation) =~= pre_indexed(&old_self.compilation));
            if old_self.module_post(m) is None {
                assert(post_indexed(&self.compilation) =~= post_indexed(&old_self.compilation).insert(m));
                lemma_bounded_set_len(old_self.post_numbered(), self.num_modules());
                assert(post_indexed(&old_self.compilation) =~= old_self.post_numbered());
            } else {
                assert(post_indexed(&self.compilation) =~= post_indexed(&old_self.compilation));
            }
        }
    }

    /// `self` is `old` after leaving the module of `item`.
    pub open spec fn leave_step(&self, old: &CodeSplitter, item: QueueItem) -> bool {
        &&& old.item_ok(item)
        &&& item.action == QueueAction::Leave
        &&& self.queue == old.queue
        &&& self.queue_delayed == old.queue_delayed
        &&& self.split_point_modules == old.split_point_modules
        &&& self.chunk_relation_graph == old.chunk_relation_graph
        &&& self.compilation.chunk_graph == old.compilation.chunk_graph
        &&& self.compilation.chunk_by_ukey == old.compilation.chunk_by_ukey
        &&& self.num_modules() == old.num_modules()
        &&& self.compilation.num_groups() == old.compilation.num_groups()
        &&& forall|x: int| 0 <= x < old.num_modules() && x != item.module_identifier ==>
                #[trigger] self.compilation.module_graph.modules@[x] == old.compilation.module_graph.modules@[x]
        &&& ({
                let x = item.module_identifier as int;
                let om = old.compilation.module_graph.modules@[x];
                let nm = self.compilation.module_graph.modules@[x];
                &&& nm.dependencies == om.dependencies
                &&& nm.dynamic_dependencies == om.dynamic_dependencies
                &&& nm.pre_order_index == om.pre_order_index
                &&& nm.post_order_index == (if om.post_order_index is Some {
                    om.post_order_index
                } else {
                    Some(old.next_free_module_post_order_index)
                })
                &&& self.next_free_module_post_order_index == (if om.post_order_index is Some {
                    old.next_free_module_post_order_index as int
                } else {
                    old.next_free_module_post_order_index + 1
                })
            })
        &&& self.next_free_module_pre_order_index == old.next_free_module_pre_order_index
        &&& forall|h: int| 0 <= h < old.compilation.num_groups() && h != item.chunk_group ==>
                #[trigger] self.compilation.chunk_group_by_ukey@[h] == old.compilation.chunk_group_by_ukey@[h]
        &&& ({
                let og = old.group(item.chunk_group);
                let ng = self.group(item.chunk_group);
                let x = item.module_identifier;
                &&& ng.module_pre_order_indices == og.module_pre_order_indices
                &&& ng.next_pre_order_index == og.next_pre_order_index
                &&& ng.module_post_order_indices@ == (if og.module_post_order_indices@.contains_key(x) {
                    og.module_post_order_indices@
                } else {
                    og.module_post_order_indices@.insert(x, og.next_post_order_index)
                })
                &&& ng.next_post_order_index == (if og.module_post_order_indices@.contains_key(x) {
                    og.next_post_order_index as int
                } else {
                    og.next_post_order_index + 1
                })
            })
    }

    /// Leaving a module changes no module's imports or pre-order index.
    proof fn lemma_leave_same_modules(&self, old: &CodeSplitter, item: QueueItem)
        requires
            self.leave_step(old, item),
        ensures
            forall|y: ModuleIdentifier| y < self.num_modules() ==> #[trigger] self.module_deps(y) == old.module_deps(y),
            forall|y: ModuleIdentifier| y < self.num_modules() ==> #[trigger] self.module_dyn_deps(y) == old.module_dyn_deps(y),
            forall|y: ModuleIdentifier| y < self.num_modules() ==> #[trigger] self.module_pre(y) == old.module_pre(y),
    {
        let x = item.module_identifier;
        assert forall|y: ModuleIdentifier| y < self.num_modules() implies #[trigger] self.module_deps(y) == old.module_deps(y)
            && self.module_dyn_deps(y) == old.module_dyn_deps(y) && self.module_pre(y) == old.module_pre(y) by {
            if y != x {
                assert(self.compilation.module_graph.modules@[y as int] == old.compilation.module_graph.modules@[y as int]);
            }
        }
        assert forall|y: ModuleIdentifier| y < self.num_modules() implies #[trigger] self.module_dyn_deps(y) == old.module_dyn_deps(y) by {
            if y != x {
                assert(self.compilation.module_graph.modules@[y as int] == old.compilation.module_graph.modules@[y as int]);
            }
        }
        assert forall|y: ModuleIdentifier| y < self.num_modules() implies #[trigger] self.module_pre(y) == old.module_pre(y) by {
            if y != x {
                assert(self.compilation.module_graph.modules@[y as int] == old.compilation.module_graph.modules@[y as int]);
            }
        }
    }

    /// Leaving a module keeps every member and queued addition reachable.
    proof fn lemma_leave_sound(&self, old: &CodeSplitter, item: QueueItem)
        requires
            self.leave_step(old, item),
            old.law_sound(Some(item)),
        ensures
            self.law_sound(None),
    {
        let x = item.module_identifier;
        let g = item.chunk_group;
        assert(self.graph() =~= old.graph());
        self.lemma_leave_same_modules(old, item);
        assert(self.law_sound(None)) by {
            assert forall|c: ChunkUkey, y: ModuleIdentifier| #[trigger] self.chunk_has(c, y) implies
                reachable(self.graph(), self.compilation.chunk_graph, c, y) by {
                assert(old.chunk_has(c, y));
            }
            assert forall|i: int| 0 <= i < self.queue.len() && (#[trigger] self.queue@[i]).action == QueueAction::AddAndEnter implies
                reachable(self.graph(), self.compilation.chunk_graph, self.queue@[i].chunk, self.queue@[i].module_identifier) by {
                assert(old.queue@[i].action == QueueAction::AddAndEnter);
            }
            assert forall|i: int| 0 <= i < self.queue_delayed.len() && (#[trigger] self.queue_delayed@[i]).action == QueueAction::AddAndEnter implies
                reachable(self.graph(), self.compilation.chunk_graph, self.queue_delayed@[i].chunk, self.queue_delayed@[i].module_identifier) by {
                assert(old.queue_delayed@[i].action == QueueAction::AddAndEnter);
            }
        }
    }

    /// Leaving a module keeps every root in its chunk or queued.
    proof fn lemma_leave_roots(&self, old: &CodeSplitter, item: QueueItem)
        requires
            self.leave_step(old, item),
            old.law_roots(Some(item)),
        ensures
            self.law_roots(None),
    {
        let x = item.module_identifier;
        let g = item.chunk_group;
        assert(self.graph() =~= old.graph());
        self.lemma_leave_same_modules(old, item);
        assert forall|c: ChunkUkey, y: ModuleIdentifier|
            #[trigger] old.pending_add(c, y, Some(item)) implies self.pending_add(c, y, None) by {
            if exists|i: int| 0 <= i < old.queue.len() && Self::adds(#[trigger] old.queue@[i], c, y) {
                let i = choose|i: int| 0 <= i < old.queue.len() && Self::adds(#[trigger] old.queue@[i], c, y);
                assert(Self::adds(self.queue@[i], c, y));
            } else if exists|i: int| 0 <= i < old.queue_delayed.len() && Self::adds(#[trigger] old.queue_delayed@[i], c, y) {
                let i = choose|i: int| 0 <= i < old.queue_delayed.len() && Self::adds(#[trigger] old.queue_delayed@[i], c, y);
                assert(Self::adds(self.queue_delayed@[i], c, y));
            }
        }
        assert(self.law_roots(None)) by {
            assert forall|c: ChunkUkey, r: ModuleIdentifier|
                c < self.num_chunks() && #[trigger] is_root(self.compilation.chunk_graph, c, r)
                implies self.chunk_has(c, r) || self.pending_add(c, r, None) by {
                assert(is_root(old.compilation.chunk_graph, c, r));
                if !old.chunk_has(c, r) {
                    assert(old.pending_add(c, r, Some(item)));
                }
            }
        }
    }

    /// Split points, relations, entry modules and dynamic imports are as in `old`, and chunks
    /// and their members have only grown.
    pub open spec fn splits_frame(&self, old: &CodeSplitter) -> bool {
        &&& self.split_point_modules == old.split_point_modules
        &&& self.chunk_relation_graph == old.chunk_relation_graph
        &&& self.compilation.chunk_graph.split_points() == old.compilation.chunk_graph.split_points()
        &&& self.num_chunks() >= old.num_chunks()
        &&& self.num_modules() == old.num_modules()
        &&& forall|b: ChunkUkey, y: ModuleIdentifier| #[trigger] old.chunk_has(b, y) ==> self.chunk_has(b, y)
        &&& forall|c: ChunkUkey| #[trigger] old.compilation.chunk_graph.has_chunk(c) ==> self.compilation.chunk_graph.has_chunk(c)
            && self.compilation.chunk_graph.entry_modules(c) == old.compilation.chunk_graph.entry_modules(c)
        &&& forall|y: ModuleIdentifier| y < self.num_modules() ==> #[trigger] self.module_dyn_deps(y) == old.module_dyn_deps(y)
    }

    /// The split records stand while split points, relations, chunks and dynamic imports do.
    proof fn lemma_splits_frame(&self, old: &CodeSplitter)
        requires
            self.splits_frame(old),
            old.law_splits(),
        ensures
            self.law_splits(),
    {
        self.lemma_split_points_frame(old);
        self.lemma_split_entries_frame(old);
        self.lemma_relations_frame(old);
    }

    proof fn lemma_split_points_frame(&self, old: &CodeSplitter)
        requires
            self.splits_frame(old),
            old.law_split_points(),
        ensures
            self.law_split_points(),
    {
        reveal(CodeSplitter::law_split_points);
        let sp = self.compilation.chunk_graph.split_points();
        assert forall|d: ModuleIdentifier| #[trigger] self.split_point_modules@.contains(d) implies {
            &&& sp.contains_key(d)
            &&& sp[d] < self.num_chunks()
            &&& exists|b: ChunkUkey, y: ModuleIdentifier|
                #![trigger self.edges().contains((sp[d], b)), self.chunk_has(b, y)]
                self.edges().contains((sp[d], b)) && self.chunk_has(b, y)
                    && self.module_dyn_deps(y).contains(d)
        } by {
            assert(old.split_point_modules@.contains(d));
            let (b, y) = choose|b: ChunkUkey, y: ModuleIdentifier|
                #![trigger old.edges().contains((sp[d], b)), old.chunk_has(b, y)]
                old.edges().contains((sp[d], b)) && old.chunk_has(b, y)
                    && old.module_dyn_deps(y).contains(d);
            assert(old.chunk_has(b, y));
            assert(self.chunk_has(b, y));
            assert(self.edges().contains((sp[d], b)));
            assert(self.module_dyn_deps(y) == old.module_dyn_deps(y));
            assert(self.module_dyn_deps(y).contains(d));
        }
    }

    proof fn lemma_split_entries_frame(&self, old: &CodeSplitter)
        requires
            self.splits_frame(old),
            old.law_split_entries(),
        ensures
            self.law_split_entries(),
    {
        reveal(CodeSplitter::law_split_entries);
        let sp = self.compilation.chunk_graph.split_points();
        assert forall|m: ModuleIdentifier| #[trigger]
            sp.contains_key(m) && !self.split_point_modules@.contains(m) implies {
                &&& self.compilation.chunk_graph.has_chunk(sp[m])
                &&& self.compilation.chunk_graph.entry_modules(sp[m]).contains_key(m)
            } by {
            assert(old.compilation.chunk_graph.has_chunk(sp[m]));
        }
    }

    proof fn lemma_relations_frame(&self, old: &CodeSplitter)
        requires
            self.splits_frame(old),
            old.law_relations(),
        ensures
            self.law_relations(),
    {
        reveal(CodeSplitter::law_relations);
        let sp = self.compilation.chunk_graph.split_points();
        assert forall|a: ChunkUkey, b: ChunkUkey| #[trigger] self.edges().contains((a, b)) implies {
            &&& b < self.num_chunks()
            &&& exists|d: ModuleIdentifier, y: ModuleIdentifier|
                #![trigger self.split_point_modules@.contains(d), self.chunk_has(b, y)]
                self.split_point_modules@.contains(d) && sp[d] == a && self.chunk_has(b, y)
                    && self.module_dyn_deps(y).contains(d)
        } by {
            assert(old.edges().contains((a, b)));
            let (d, y) = choose|d: ModuleIdentifier, y: ModuleIdentifier|
                #![trigger old.split_point_modules@.contains(d), old.chunk_has(b, y)]
                old.split_point_modules@.contains(d) && sp[d] == a && old.chunk_has(b, y)
                    && old.module_dyn_deps(y).contains(d);
            assert(old.chunk_has(b, y));
            assert(self.chunk_has(b, y));
            assert(self.split_point_modules@.contains(d));
            assert(self.module_dyn_deps(y) == old.module_dyn_deps(y));
            assert(self.module_dyn_deps(y).contains(d));
        }
    }

    /// Leaving a module keeps the module order indices in order.
    proof fn lemma_leave_module_orders(&self, old: &CodeSplitter, item: QueueItem)
        requires
            self.leave_step(old, item),
            old.law_module_orders(),
        ensures
            self.law_module_orders(),
    {
        let x = item.module_identifier;
        let g = item.chunk_group;
        assert(self.graph() =~= old.graph());
        self.lemma_leave_same_modules(old, item);
        assert(self.law_module_orders()) by {
            assert forall|y: ModuleIdentifier|
                y < self.num_modules() && (#[trigger] self.module_post(y)) is Some implies
                self.module_post(y).unwrap() < self.next_free_module_post_order_index && self.module_pre(y) is Some by {
                if y != x {
                    assert(self.compilation.module_graph.modules@[y as int] == old.compilation.module_graph.modules@[y as int]);
                    assert(old.module_post(y) is Some);
                } else {
                    assert(old.compilation.module_graph.modules@[x as int].pre_order_index is Some);
                    if old.module_post(x) is Some {
                        assert(old.module_post(x).unwrap() < old.next_free_module_post_order_index);
                    }
                }
            }
            assert forall|m1: ModuleIdentifier, m2: ModuleIdentifier|
                m1 < self.num_modules() && m2 < self.num_modules() && m1 != m2 && (#[trigger] self.module_post(m1)) is Some
                    && (#[trigger] self.module_post(m2)) is Some implies self.module_post(m1) != self.module_post(m2) by {
                if m1 != x && m2 != x {
                    assert(self.compilation.module_graph.modules@[m1 as int] == old.compilation.module_graph.modules@[m1 as int]);
                    assert(self.compilation.module_graph.modules@[m2 as int] == old.compilation.module_graph.modules@[m2 as int]);
                    assert(old.module_post(m1) is Some && old.module_post(m2) is Some);
                } else if m1 == x {
                    assert(self.compilation.module_graph.modules@[m2 as int] == old.compilation.module_graph.modules@[m2 as int]);
                    assert(old.module_post(m2) is Some);
                } else {
                    assert(self.compilation.module_graph.modules@[m1 as int] == old.compilation.module_graph.modules@[m1 as int]);
                    assert(old.module_post(m1) is Some);
                }
            }
            assert forall|m1: ModuleIdentifier, m2: ModuleIdentifier|
                m1 < self.num_modules() && m2 < self.num_modules() && m1 != m2 && (#[trigger] self.module_pre(m1)) is Some
                    && (#[trigger] self.module_pre(m2)) is Some implies self.module_pre(m1) != self.module_pre(m2) by {
                assert(old.module_pre(m1) is Some && old.module_pre(m2) is Some);
            }
            assert forall|y: ModuleIdentifier|
                y < self.num_modules() && (#[trigger] self.module_pre(y)) is Some implies
                self.module_pre(y).unwrap() < self.next_free_module_pre_order_index by {
                assert(old.module_pre(y) is Some);
            }
        }
    }

    /// Leaving a module keeps the group order indices in order.
    proof fn lemma_leave_group_orders(&self, old: &CodeSplitter, item: QueueItem)
        requires
            self.leave_step(old, item),
            old.law_group_orders(Some(item)),
        ensures
            self.law_group_orders(None),
    {
        let x = item.module_identifier;
        let g = item.chunk_group;
        assert(self.graph() =~= old.graph());
        self.lemma_leave_same_modules(old, item);
        // what the item in hand witnessed is now recorded
        assert forall|h: ChunkGroupUkey, y: ModuleIdentifier|
            #[trigger] old.pending_leave(h, y, Some(item)) implies self.pending_leave(h, y, None)
                || (h == g && y == x) by {
            if !(h == g && y == x) {
                let i = choose|i: int| 0 <= i < old.queue.len() && Self::leaves(#[trigger] old.queue@[i], h, y);
                assert(Self::leaves(self.queue@[i], h, y));
            }
        }
        assert(self.law_group_orders(None)) by {
            assert forall|h: ChunkGroupUkey, y: ModuleIdentifier|
                h < self.compilation.num_groups() && #[trigger] self.group(h).module_pre_order_indices@.contains_key(y) implies {
                    &&& self.group(h).module_pre_order_indices@[y] < self.group(h).next_pre_order_index
                    &&& (self.group(h).module_post_order_indices@.contains_key(y) || self.pending_leave(h, y, None))
                } by {
                if h != g {
                    assert(self.compilation.chunk_group_by_ukey@[h as int] == old.compilation.chunk_group_by_ukey@[h as int]);
                }
                assert(old.group(h).module_pre_order_indices@.contains_key(y));
                if !old.group(h).module_post_order_indices@.contains_key(y) {
                    assert(old.pending_leave(h, y, Some(item)));
                }
            }
            assert forall|h: ChunkGroupUkey, m1: ModuleIdentifier, m2: ModuleIdentifier|
                h < self.compilation.num_groups() && m1 != m2
                    && #[trigger] self.group(h).module_pre_order_indices@.contains_key(m1)
                    && #[trigger] self.group(h).module_pre_order_indices@.contains_key(m2)
                implies self.group(h).module_pre_order_indices@[m1] != self.group(h).module_pre_order_indices@[m2] by {
                if h != g {
                    assert(self.compilation.chunk_group_by_ukey@[h as int] == old.compilation.chunk_group_by_ukey@[h as int]);
                }
                assert(old.group(h).module_pre_order_indices@.contains_key(m1));
                assert(old.group(h).module_pre_order_indices@.contains_key(m2));
            }
            assert forall|h: ChunkGroupUkey, y: ModuleIdentifier|
                h < self.compilation.num_groups() && #[trigger] self.group(h).module_post_order_indices@.contains_key(y) implies {
                    &&& self.group(h).module_post_order_indices@[y] < self.group(h).next_post_order_index
                    &&& self.group(h).module_pre_order_indices@.contains_key(y)
                } by {
                if h != g {
                    assert(self.compilation.chunk_group_by_ukey@[h as int] == old.compilation.chunk_group_by_ukey@[h as int]);
                    assert(old.group(h).module_post_order_indices@.contains_key(y));
                } else if y != x || old.group(h).module_post_order_indices@.contains_key(x) {
                    assert(old.group(h).module_post_order_indices@.contains_key(y));
                }
            }
            assert forall|h: ChunkGroupUkey, m1: ModuleIdentifier, m2: ModuleIdentifier|
                h < self.compilation.num_groups() && m1 != m2
                    && #[trigger] self.group(h).module_post_order_indices@.contains_key(m1)
                    && #[trigger] self.group(h).module_post_order_indices@.contains_key(m2)
                implies self.group(h).module_post_order_indices@[m1] != self.group(h).module_post_order_indices@[m2] by {
                if h != g {
                    assert(self.compilation.chunk_group_by_ukey@[h as int] == old.compilation.chunk_group_by_ukey@[h as int]);
                    assert(old.group(h).module_post_order_indices@.contains_key(m1));
                    assert(old.group(h).module_post_order_indices@.contains_key(m2));
                } else {
                    let og = old.group(h);
                    if m1 != x || og.module_post_order_indices@.contains_key(x) {
                        assert(og.module_post_order_indices@.contains_key(m1));
                    }
                    if m2 != x || og.module_post_order_indices@.contains_key(x) {
                        assert(og.module_post_order_indices@.contains_key(m2));
                    }
                }
            }
        }
    }

    /// Leaving a module keeps what the members owe.
    proof fn lemma_leave_members(&self, old: &CodeSplitter, item: QueueItem)
        requires
            self.leave_step(old, item),
            old.law(Some(item)),
        ensures
            forall|c: ChunkUkey, y: ModuleIdentifier| #[trigger] self.chunk_has(c, y) ==> self.member_deps(c, y, None) && self.member_entered(y, None),
    {
        let x = item.module_identifier;
        let g = item.chunk_group;
        assert(self.graph() =~= old.graph());
        self.lemma_leave_same_modules(old, item);
        // what the item in hand witnessed is now recorded
        assert forall|h: ChunkGroupUkey, y: ModuleIdentifier|
            #[trigger] old.pending_leave(h, y, Some(item)) implies self.pending_leave(h, y, None)
                || (h == g && y == x) by {
            if !(h == g && y == x) {
                let i = choose|i: int| 0 <= i < old.queue.len() && Self::leaves(#[trigger] old.queue@[i], h, y);
                assert(Self::leaves(self.queue@[i], h, y));
            }
        }
        assert forall|c: ChunkUkey, y: ModuleIdentifier|
            #[trigger] old.pending_add(c, y, Some(item)) implies self.pending_add(c, y, None) by {
            if exists|i: int| 0 <= i < old.queue.len() && Self::adds(#[trigger] old.queue@[i], c, y) {
                let i = choose|i: int| 0 <= i < old.queue.len() && Self::adds(#[trigger] old.queue@[i], c, y);
                assert(Self::adds(self.queue@[i], c, y));
            } else if exists|i: int| 0 <= i < old.queue_delayed.len() && Self::adds(#[trigger] old.queue_delayed@[i], c, y) {
                let i = choose|i: int| 0 <= i < old.queue_delayed.len() && Self::adds(#[trigger] old.queue_delayed@[i], c, y);
                assert(Self::adds(self.queue_delayed@[i], c, y));
            }
        }
        assert forall|c: ChunkUkey, y: ModuleIdentifier| #[trigger] self.chunk_has(c, y) implies
            self.member_deps(c, y, None) && self.member_entered(y, None) by {
            assert(old.chunk_has(c, y));
            assert(old.member_deps(c, y, Some(item)));
            assert(old.member_entered(y, Some(item)));
            assert forall|j: int| 0 <= j < self.module_deps(y).len() implies self.chunk_has(c, #[trigger] self.module_deps(y)[j])
                || self.pending_add(c, self.module_deps(y)[j], None) by {
                if !old.chunk_has(c, old.module_deps(y)[j]) {
                    assert(old.pending_add(c, old.module_deps(y)[j], Some(item)));
                }
            }
            assert forall|j: int| 0 <= j < self.module_dyn_deps(y).len() implies self.split_point_modules@.contains(
                #[trigger] self.module_dyn_deps(y)[j]) by {
                assert(old.split_point_modules@.contains(old.module_dyn_deps(y)[j]));
            }
            if y != x {
                assert(self.compilation.module_graph.modules@[y as int] == old.compilation.module_graph.modules@[y as int]);
                if old.module_post(y) is None {
                    let h = choose|h: ChunkGroupUkey| #[trigger] old.pending_leave(h, y, Some(item));
                    assert(self.pending_leave(h, y, None));
                }
            }
        }
    }

    /// Leaving a module keeps the law.
    proof fn lemma_leave_law(&self, old: &CodeSplitter, item: QueueItem)
        requires
            self.leave_step(old, item),
            old.law(Some(item)),
        ensures
            self.law(None),
    {
        self.lemma_leave_sound(old, item);
        self.lemma_leave_roots(old, item);
        self.lemma_leave_same_modules(old, item);
        self.lemma_splits_frame(old);
        self.lemma_leave_module_orders(old, item);
        self.lemma_leave_group_orders(old, item);
        self.lemma_leave_members(old, item);
    }

    /// Both queues of `self` extend those of `old`.
    pub open spec fn queues_grew(&self, old: &CodeSplitter) -> bool {
        &&& self.queue.len() >= old.queue.len()
        &&& forall|i: int| 0 <= i < old.queue.len() ==> #[trigger] self.queue@[i] == old.queue@[i]
        &&& self.queue_delayed.len() >= old.queue_delayed.len()
        &&& forall|i: int|
            0 <= i < old.queue_delayed.len() ==> #[trigger] self.queue_delayed@[i] == old.queue_delayed@[i]
    }

    /// What was queued stays queued while the queues only grow.
    proof fn lemma_pending_grow(&self, old: &CodeSplitter)
        requires
            self.queues_grew(old),
        ensures
            forall|c: ChunkUkey, m: ModuleIdentifier| #[trigger]
                old.pending_add(c, m, None) ==> self.pending_add(c, m, None),
            forall|g: ChunkGroupUkey, m: ModuleIdentifier| #[trigger]
                old.pending_leave(g, m, None) ==> self.pending_leave(g, m, None),
    {
        assert forall|c: ChunkUkey, m: ModuleIdentifier| #[trigger]
            old.pending_add(c, m, None) implies self.pending_add(c, m, None) by {
            if exists|i: int| 0 <= i < old.queue.len() && Self::adds(#[trigger] old.queue@[i], c, m) {
                let i = choose|i: int| 0 <= i < old.queue.len() && Self::adds(#[trigger] old.queue@[i], c, m);
                assert(Self::adds(self.queue@[i], c, m));
            } else {
                let i = choose|i: int| 0 <= i < old.queue_delayed.len() && Self::adds(#[trigger] old.queue_delayed@[i], c, m);
                assert(Self::adds(self.queue_delayed@[i], c, m));
            }
        }
        assert forall|g: ChunkGroupUkey, m: ModuleIdentifier| #[trigger]
            old.pending_leave(g, m, None) implies self.pending_leave(g, m, None) by {
            let i = choose|i: int| 0 <= i < old.queue.len() && Self::leaves(#[trigger] old.queue@[i], g, m);
            assert(Self::leaves(self.queue@[i], g, m));
        }
    }

    /// `self` is `old` after entering module `item.module_identifier` in its group.
    pub open spec fn enter_step(&self, old: &CodeSplitter, item: QueueItem) -> bool {
        let x = item.module_identifier;
        let g = item.chunk_group;
        &&& old.refs_ok(item)
        &&& self.queue@ == old.queue@.push(
            QueueItem {
                action: QueueAction::Leave,
                chunk_group: item.chunk_group,
                chunk: item.chunk,
                module_identifier: item.module_identifier,
            },
        )
        &&& self.queue_delayed == old.queue_delayed
        &&& self.split_point_modules == old.split_point_modules
        &&& self.chunk_relation_graph == old.chunk_relation_graph
        &&& self.compilation.chunk_graph == old.compilation.chunk_graph
        &&& self.compilation.chunk_by_ukey == old.compilation.chunk_by_ukey
        &&& self.num_modules() == old.num_modules()
        &&& self.compilation.num_groups() == old.compilation.num_groups()
        &&& forall|y: int| 0 <= y < old.num_modules() && y != x ==>
            #[trigger] self.compilation.module_graph.modules@[y] == old.compilation.module_graph.modules@[y]
        &&& ({
            let om = old.compilation.module_graph.modules@[x as int];
            let nm = self.compilation.module_graph.modules@[x as int];
            &&& nm.dependencies == om.dependencies
            &&& nm.dynamic_dependencies == om.dynamic_dependencies
            &&& nm.post_order_index == om.post_order_index
            &&& nm.pre_order_index == (if om.pre_order_index is Some {
                om.pre_order_index
            } else {
                Some(old.next_free_module_pre_order_index)
            })
            &&& self.next_free_module_pre_order_index == (if om.pre_order_index is Some {
                old.next_free_module_pre_order_index as int
            } else {
                old.next_free_module_pre_order_index + 1
            })
        })
        &&& self.next_free_module_post_order_index == old.next_free_module_post_order_index
        &&& forall|h: int| 0 <= h < old.compilation.num_groups() && h != g ==>
            #[trigger] self.compilation.chunk_group_by_ukey@[h] == old.compilation.chunk_group_by_ukey@[h]
        &&& ({
            let og = old.group(g);
            let ng = self.group(g);
            &&& ng.module_post_order_indices == og.module_post_order_indices
            &&& ng.next_post_order_index == og.next_post_order_index
            &&& ng.module_pre_order_indices@ == (if og.module_pre_order_indices@.contains_key(x) {
                og.module_pre_order_indices@
            } else {
                og.module_pre_order_indices@.insert(x, og.next_pre_order_index)
            })
            &&& ng.next_pre_order_index == (if og.module_pre_order_indices@.contains_key(x) {
                og.next_pre_order_index as int
            } else {
                og.next_pre_order_index + 1
            })
        })
    }

    /// Entering changes no module's imports or post-order index.
    proof fn lemma_enter_same_modules(&self, old: &CodeSplitter, item: QueueItem)
        requires
            self.enter_step(old, item),
        ensures
            forall|y: ModuleIdentifier| y < self.num_modules() ==> #[trigger] self.module_deps(y) == old.module_deps(y),
            forall|y: ModuleIdentifier| y < self.num_modules() ==> #[trigger] self.module_dyn_deps(y) == old.module_dyn_deps(y),
            forall|y: ModuleIdentifier| y < self.num_modules() ==> #[trigger] self.module_post(y) == old.module_post(y),
            forall|y: ModuleIdentifier| y < self.num_modules() && y != item.module_identifier ==> #[trigger] self.module_pre(y) == old.module_pre(y),
            self.graph() == old.graph(),
            self.queues_grew(old),
    {
        let x = item.module_identifier;
        assert forall|y: ModuleIdentifier| y < self.num_modules() implies #[trigger] self.module_deps(y) == old.module_deps(y) by {
            if y != x {
                assert(self.compilation.module_graph.modules@[y as int] == old.compilation.module_graph.modules@[y as int]);
            }
        }
        assert forall|y: ModuleIdentifier| y < self.num_modules() implies #[trigger] self.module_dyn_deps(y) == old.module_dyn_deps(y) by {
            if y != x {
                assert(self.compilation.module_graph.modules@[y as int] == old.compilation.module_graph.modules@[y as int]);
            }
        }
        assert forall|y: ModuleIdentifier| y < self.num_modules() implies #[trigger] self.module_post(y) == old.module_post(y) by {
            if y != x {
                assert(self.compilation.module_graph.modules@[y as int] == old.compilation.module_graph.modules@[y as int]);
            }
        }
        assert forall|y: ModuleIdentifier| y < self.num_modules() && y != x implies #[trigger] self.module_pre(y) == old.module_pre(y) by {
            assert(self.compilation.module_graph.modules@[y as int] == old.compilation.module_graph.modules@[y as int]);
        }
        assert(self.graph() =~= old.graph()) by {
            assert forall|y: int| 0 <= y < self.num_modules() implies #[trigger] self.graph()[y] == old.graph()[y] by {
                if y != x {
                    assert(self.compilation.module_graph.modules@[y] == old.compilation.module_graph.modules@[y]);
                }
            }
        }
        assert forall|i: int| 0 <= i < old.queue.len() implies #[trigger] self.queue@[i] == old.queue@[i] by {
        }
    }

    /// Entering keeps every member and queued addition reachable.
    proof fn lemma_enter_sound(&self, old: &CodeSplitter, item: QueueItem)
        requires
            self.enter_step(old, item),
            old.law_sound(None),
        ensures
            self.law_sound(None),
    {
        self.lemma_enter_same_modules(old, item);
        assert forall|c: ChunkUkey, y: ModuleIdentifier| #[trigger] self.chunk_has(c, y) implies
            reachable(self.graph(), self.compilation.chunk_graph, c, y) by {
            assert(old.chunk_has(c, y));
        }
        assert forall|i: int| 0 <= i < self.queue.len() && (#[trigger] self.queue@[i]).action == QueueAction::AddAndEnter implies
            reachable(self.graph(), self.compilation.chunk_graph, self.queue@[i].chunk, self.queue@[i].module_identifier) by {
            assert(i < old.queue.len());
            assert(old.queue@[i].action == QueueAction::AddAndEnter);
        }
        assert forall|i: int| 0 <= i < self.queue_delayed.len() && (#[trigger] self.queue_delayed@[i]).action == QueueAction::AddAndEnter implies
            reachable(self.graph(), self.compilation.chunk_graph, self.queue_delayed@[i].chunk, self.queue_delayed@[i].module_identifier) by {
            assert(old.queue_delayed@[i].action == QueueAction::AddAndEnter);
        }
    }

    /// Entering keeps every root in its chunk or queued.
    proof fn lemma_enter_roots(&self, old: &CodeSplitter, item: QueueItem)
        requires
            self.enter_step(old, item),
            old.law_roots(None),
        ensures
            self.law_roots(None),
    {
        self.lemma_enter_same_modules(old, item);
        self.lemma_pending_grow(old);
        assert forall|c: ChunkUkey, r: ModuleIdentifier|
            c < self.num_chunks() && #[trigger] is_root(self.compilation.chunk_graph, c, r)
            implies self.chunk_has(c, r) || self.pending_add(c, r, None) by {
            assert(is_root(old.compilation.chunk_graph, c, r));
            if !old.chunk_has(c, r) {
                assert(old.pending_add(c, r, None));
            }
        }
    }

    /// Entering keeps the module order indices in order.
    proof fn lemma_enter_module_orders(&self, old: &CodeSplitter, item: QueueItem)
        requires
            self.enter_step(old, item),
            old.law_module_orders(),
        ensures
            self.law_module_orders(),
    {
        let x = item.module_identifier;
        self.lemma_enter_same_modules(old, item);
        assert forall|y: ModuleIdentifier|
            y < self.num_modules() && (#[trigger] self.module_pre(y)) is Some implies
            self.module_pre(y).unwrap() < self.next_free_module_pre_order_index by {
            if y != x || old.module_pre(x) is Some {
                assert(old.module_pre(y) is Some);
            }
        }
        assert forall|m1: ModuleIdentifier, m2: ModuleIdentifier|
            m1 < self.num_modules() && m2 < self.num_modules() && m1 != m2 && (#[trigger] self.module_pre(m1)) is Some
                && (#[trigger] self.module_pre(m2)) is Some implies self.module_pre(m1) != self.module_pre(m2) by {
            if m1 != x || old.module_pre(x) is Some {
                assert(old.module_pre(m1) is Some);
            }
            if m2 != x || old.module_pre(x) is Some {
                assert(old.module_pre(m2) is Some);
            }
        }
        assert forall|y: ModuleIdentifier|
            y < self.num_modules() && (#[trigger] self.module_post(y)) is Some implies
            self.module_post(y).unwrap() < self.next_free_module_post_order_index && self.module_pre(y) is Some by {
            assert(old.module_post(y) is Some);
            assert(old.module_pre(y) is Some);
        }
        assert forall|m1: ModuleIdentifier, m2: ModuleIdentifier|
            m1 < self.num_modules() && m2 < self.num_modules() && m1 != m2 && (#[trigger] self.module_post(m1)) is Some
                && (#[trigger] self.module_post(m2)) is Some implies self.module_post(m1) != self.module_post(m2) by {
            assert(old.module_post(m1) is Some && old.module_post(m2) is Some);
        }
    }

    /// Entering keeps the group order indices in order.
    proof fn lemma_enter_group_orders(&self, old: &CodeSplitter, item: QueueItem)
        requires
            self.enter_step(old, item),
            old.law_group_orders(None),
        ensures
            self.law_group_orders(None),
    {
        let x = item.module_identifier;
        let g = item.chunk_group;
        self.lemma_enter_same_modules(old, item);
        self.lemma_pending_grow(old);
        let last = self.queue.len() - 1;
        assert(Self::leaves(self.queue@[last as int], g, x));
        assert(self.pending_leave(g, x, None));
        assert forall|h: ChunkGroupUkey, y: ModuleIdentifier|
            h < self.compilation.num_groups() && #[trigger] self.group(h).module_pre_order_indices@.contains_key(y) implies {
                &&& self.group(h).module_pre_order_indices@[y] < self.group(h).next_pre_order_index
                &&& (self.group(h).module_post_order_indices@.contains_key(y) || self.pending_leave(h, y, None))
            } by {
            if h != g {
                assert(self.compilation.chunk_group_by_ukey@[h as int] == old.compilation.chunk_group_by_ukey@[h as int]);
            }
            if h != g || y != x || old.group(g).module_pre_order_indices@.contains_key(x) {
                assert(old.group(h).module_pre_order_indices@.contains_key(y));
                if !old.group(h).module_post_order_indices@.contains_key(y) {
                    assert(old.pending_leave(h, y, None));
                }
            }
        }
        assert forall|h: ChunkGroupUkey, m1: ModuleIdentifier, m2: ModuleIdentifier|
            h < self.compilation.num_groups() && m1 != m2
                && #[trigger] self.group(h).module_pre_order_indices@.contains_key(m1)
                && #[trigger] self.group(h).module_pre_order_indices@.contains_key(m2)
            implies self.group(h).module_pre_order_indices@[m1] != self.group(h).module_pre_order_indices@[m2] by {
            if h != g {
                assert(self.compilation.chunk_group_by_ukey@[h as int] == old.compilation.chunk_group_by_ukey@[h as int]);
                assert(old.group(h).module_pre_order_indices@.contains_key(m1));
                assert(old.group(h).module_pre_order_indices@.contains_key(m2));
            } else {
                let og = old.group(h);
                if m1 != x || og.module_pre_order_indices@.contains_key(x) {
                    assert(og.module_pre_order_indices@.contains_key(m1));
                }
                if m2 != x || og.module_pre_order_indices@.contains_key(x) {
                    assert(og.module_pre_order_indices@.contains_key(m2));
                }
            }
        }
        assert forall|h: ChunkGroupUkey, y: ModuleIdentifier|
            h < self.compilation.num_groups() && #[trigger] self.group(h).module_post_order_indices@.contains_key(y) implies {
                &&& self.group(h).module_post_order_indices@[y] < self.group(h).next_post_order_index
                &&& self.group(h).module_pre_order_indices@.contains_key(y)
            } by {
            if h != g {
                assert(self.compilation.chunk_group_by_ukey@[h as int] == old.compilation.chunk_group_by_ukey@[h as int]);
            }
            assert(old.group(h).module_post_order_indices@.contains_key(y));
        }
        assert forall|h: ChunkGroupUkey, m1: ModuleIdentifier, m2: ModuleIdentifier|
            h < self.compilation.num_groups() && m1 != m2
                && #[trigger] self.group(h).module_post_order_indices@.contains_key(m1)
                && #[trigger] self.group(h).module_post_order_indices@.contains_key(m2)
            implies self.group(h).module_post_order_indices@[m1] != self.group(h).module_post_order_indices@[m2] by {
            if h != g {
                assert(self.compilation.chunk_group_by_ukey@[h as int] == old.compilation.chunk_group_by_ukey@[h as int]);
            }
            assert(old.group(h).module_post_order_indices@.contains_key(m1));
            assert(old.group(h).module_post_order_indices@.contains_key(m2));
        }
    }

    /// Entering a module keeps what the members owe, and leaves the entered module with its
    /// pre-order index and a queued leave.
    proof fn lemma_enter_members(&self, old: &CodeSplitter, item: QueueItem)
        requires
            self.enter_step(old, item),
            old.law_before_enter(item.chunk, item.module_identifier),
        ensures
            forall|c: ChunkUkey, m: ModuleIdentifier| #[trigger]
                self.chunk_has(c, m) ==> self.member_entered(m, None),
            forall|c: ChunkUkey, m: ModuleIdentifier| #[trigger]
                self.chunk_has(c, m) && (c != item.chunk || m != item.module_identifier) ==> self.member_deps(c, m, None),
    {
        let x = item.module_identifier;
        let g = item.chunk_group;
        self.lemma_enter_same_modules(old, item);
        self.lemma_pending_grow(old);
        let last = self.queue.len() - 1;
        assert(Self::leaves(self.queue@[last as int], g, x));
        assert(self.pending_leave(g, x, None));
        assert forall|c: ChunkUkey, m: ModuleIdentifier| #[trigger]
            self.chunk_has(c, m) implies self.member_entered(m, None) by {
            assert(old.chunk_has(c, m));
            if m != x {
                assert(old.member_entered(m, None));
                if old.module_post(m) is None {
                    let h = choose|h: ChunkGroupUkey| #[trigger] old.pending_leave(h, m, None);
                    assert(self.pending_leave(h, m, None));
                }
            }
        }
        assert forall|c: ChunkUkey, m: ModuleIdentifier| #[trigger]
            self.chunk_has(c, m) && (c != item.chunk || m != item.module_identifier) implies self.member_deps(c, m, None) by {
            assert(old.chunk_has(c, m));
            assert(old.member_deps(c, m, None));
            assert forall|j: int| 0 <= j < self.module_deps(m).len() implies self.chunk_has(c, #[trigger] self.module_deps(m)[j])
                || self.pending_add(c, self.module_deps(m)[j], None) by {
                if !old.chunk_has(c, old.module_deps(m)[j]) {
                    assert(old.pending_add(c, old.module_deps(m)[j], None));
                }
            }
            assert forall|j: int| 0 <= j < self.module_dyn_deps(m).len() implies self.split_point_modules@.contains(
                #[trigger] self.module_dyn_deps(m)[j]) by {
                assert(old.split_point_modules@.contains(old.module_dyn_deps(m)[j]));
            }
        }
    }

    /// Entering a module turns the law before entering into the law before processing.
    proof fn lemma_enter_law(&self, old: &CodeSplitter, item: QueueItem)
        requires
            self.enter_step(old, item),
            old.law_before_enter(item.chunk, item.module_identifier),
        ensures
            self.law_before_process(item.chunk, item.module_identifier),
    {
        self.lemma_enter_same_modules(old, item);
        self.lemma_enter_sound(old, item);
        self.lemma_enter_roots(old, item);
        self.lemma_splits_frame(old);
        self.lemma_enter_module_orders(old, item);
        self.lemma_enter_group_orders(old, item);
        self.lemma_enter_members(old, item);
        assert(self.law_runtimes());
        assert(self.chunk_has(item.chunk, item.module_identifier));
    }


    /// The law while module `x` of chunk `c0` is processed: its static imports are queued,
    /// and its dynamic imports from the `k`-th on are split points.
    pub open spec fn law_processing(&self, c0: ChunkUkey, x: ModuleIdentifier, k: int) -> bool {
        &&& self.law_before_process(c0, x)
        &&& forall|j: int|
            0 <= j < self.module_deps(x).len() ==> self.chunk_has(c0, #[trigger] self.module_deps(x)[j])
                || self.pending_add(c0, self.module_deps(x)[j], None)
        &&& forall|j: int|
            k <= j < self.module_dyn_deps(x).len() ==> self.split_point_modules@.contains(
                #[trigger] self.module_dyn_deps(x)[j],
            )
    }

    /// `self` is `prev` after module `d`, imported dynamically by module `x` of chunk `c0`,
    /// became a split point starting chunk `chunk` in the new group `new_group`.
    pub open spec fn split_step(
        &self,
        prev: &CodeSplitter,
        c0: ChunkUkey,
        x: ModuleIdentifier,
        d: ModuleIdentifier,
        chunk: ChunkUkey,
        new_group: ChunkGroupUkey,
    ) -> bool {
        let cg = self.compilation.chunk_graph;
        let pcg = prev.compilation.chunk_graph;
        &&& prev.chunk_has(c0, x)
        &&& prev.module_dyn_deps(x).contains(d)
        &&& d < prev.num_modules()
        &&& !prev.split_point_modules@.contains(d)
        &&& self.split_point_modules@ == prev.split_point_modules@.insert(d)
        &&& self.edges() == prev.edges().insert((chunk, c0))
        &&& self.queue == prev.queue
        &&& self.queue_delayed@ == prev.queue_delayed@.push(
            QueueItem {
                action: QueueAction::AddAndEnter,
                chunk,
                chunk_group: new_group,
                module_identifier: d,
            },
        )
        &&& self.compilation.module_graph == prev.compilation.module_graph
        &&& self.next_free_module_pre_order_index == prev.next_free_module_pre_order_index
        &&& self.next_free_module_post_order_index == prev.next_free_module_post_order_index
        &&& chunk < self.num_chunks()
        &&& (self.num_chunks() == prev.num_chunks() || (self.num_chunks() == prev.num_chunks() + 1
            && chunk == prev.num_chunks()))
        &&& forall|c: int|
            0 <= c < prev.num_chunks() ==> (#[trigger] self.compilation.chunk_by_ukey@[c]).runtime
                == prev.compilation.chunk_by_ukey@[c].runtime
        &&& chunk >= prev.num_chunks() ==> self.compilation.chunk_by_ukey@[chunk as int].runtime@.len() == 0
        &&& self.compilation.num_groups() == prev.compilation.num_groups() + 1
        &&& new_group == prev.compilation.num_groups()
        &&& forall|h: ChunkGroupUkey|
            h < prev.compilation.num_groups() ==> {
                &&& (#[trigger] self.group(h)).module_pre_order_indices == prev.group(h).module_pre_order_indices
                &&& self.group(h).module_post_order_indices == prev.group(h).module_post_order_indices
                &&& self.group(h).next_pre_order_index == prev.group(h).next_pre_order_index
                &&& self.group(h).next_post_order_index == prev.group(h).next_post_order_index
            }
        &&& self.group(new_group).module_pre_order_indices@ == Map::<ModuleIdentifier, usize>::empty()
        &&& self.group(new_group).module_post_order_indices@ == Map::<ModuleIdentifier, usize>::empty()
        &&& forall|c: ChunkUkey| #[trigger] pcg.has_chunk(c) ==> cg.has_chunk(c)
            && cg.entry_modules(c) == pcg.entry_modules(c) && cg.chunk_modules(c) == pcg.chunk_modules(c)
        &&& forall|c: ChunkUkey| #[trigger] cg.has_chunk(c) && !pcg.has_chunk(c) ==> c == chunk
            && cg.entry_modules(c) == Map::<ModuleIdentifier, ChunkGroupUkey>::empty()
            && cg.chunk_modules(c) == Set::<ModuleIdentifier>::empty()
        &&& forall|c: ChunkUkey| c < prev.num_chunks() ==> #[trigger] pcg.has_chunk(c)
        &&& forall|c: ChunkUkey| #[trigger] pcg.has_chunk(c) ==> c < prev.num_chunks()
        &&& cg.split_points() == pcg.split_points().insert(d, chunk)
        &&& cg.has_chunk(chunk)
        &&& forall|m: ModuleIdentifier| #[trigger] pcg.split_points().contains_key(m) ==> pcg.split_points()[m] < prev.num_chunks()
    }

    /// A new split point keeps roots as roots, so reachability only grows.
    proof fn lemma_split_roots_grow(&self, prev: &CodeSplitter, c0: ChunkUkey, x: ModuleIdentifier, d: ModuleIdentifier, chunk: ChunkUkey, new_group: ChunkGroupUkey)
        requires
            self.split_step(prev, c0, x, d, chunk, new_group),
            prev.law_split_entries(),
        ensures
            forall|c: ChunkUkey, r: ModuleIdentifier| #[trigger]
                is_root(prev.compilation.chunk_graph, c, r) ==> is_root(self.compilation.chunk_graph, c, r),
            forall|c: ChunkUkey, m: ModuleIdentifier| #[trigger]
                reachable(prev.graph(), prev.compilation.chunk_graph, c, m) ==> reachable(self.graph(), self.compilation.chunk_graph, c, m),
            is_root(self.compilation.chunk_graph, chunk, d),
    {
        reveal(CodeSplitter::law_split_entries);
        let cg = self.compilation.chunk_graph;
        let pcg = prev.compilation.chunk_graph;
        assert forall|c: ChunkUkey, r: ModuleIdentifier| #[trigger]
            is_root(pcg, c, r) implies is_root(cg, c, r) by {
            if pcg.has_chunk(c) && pcg.entry_modules(c).contains_key(r) {
            } else if r == d {
                assert(pcg.split_points().contains_key(d) && !prev.split_point_modules@.contains(d));
                assert(pcg.has_chunk(pcg.split_points()[d]));
                assert(pcg.entry_modules(pcg.split_points()[d]).contains_key(d));
                assert(cg.entry_modules(c).contains_key(r));
            }
        }
        assert(self.graph() == prev.graph());
        lemma_reachable_mono(prev.graph(), pcg, cg);
    }

    /// A new split point keeps every member and queued addition reachable.
    proof fn lemma_split_sound(&self, prev: &CodeSplitter, c0: ChunkUkey, x: ModuleIdentifier, d: ModuleIdentifier, chunk: ChunkUkey, new_group: ChunkGroupUkey)
        requires
            self.split_step(prev, c0, x, d, chunk, new_group),
            prev.law_split_entries(),
            prev.law_sound(None),
        ensures
            self.law_sound(None),
    {
        self.lemma_split_roots_grow(prev, c0, x, d, chunk, new_group);
        let cg = self.compilation.chunk_graph;
        let pcg = prev.compilation.chunk_graph;
        assert forall|c: ChunkUkey, y: ModuleIdentifier| #[trigger] self.chunk_has(c, y) implies
            reachable(self.graph(), cg, c, y) by {
            if c < prev.num_chunks() {
                assert(pcg.has_chunk(c));
                assert(prev.chunk_has(c, y));
                assert(reachable(prev.graph(), pcg, c, y));
            }
        }
        assert forall|i: int| 0 <= i < self.queue.len() && (#[trigger] self.queue@[i]).action == QueueAction::AddAndEnter implies
            reachable(self.graph(), cg, self.queue@[i].chunk, self.queue@[i].module_identifier) by {
            assert(reachable(prev.graph(), pcg, prev.queue@[i].chunk, prev.queue@[i].module_identifier));
        }
        assert forall|i: int| 0 <= i < self.queue_delayed.len() && (#[trigger] self.queue_delayed@[i]).action == QueueAction::AddAndEnter implies
            reachable(self.graph(), cg, self.queue_delayed@[i].chunk, self.queue_delayed@[i].module_identifier) by {
            if i < prev.queue_delayed.len() {
                assert(self.queue_delayed@[i] == prev.queue_delayed@[i]);
                assert(reachable(prev.graph(), pcg, prev.queue_delayed@[i].chunk, prev.queue_delayed@[i].module_identifier));
            } else {
                assert(self.graph().len() == self.num_modules());
                lemma_reachable_root(self.graph(), cg, chunk, d);
            }
        }
    }


    /// A new split point keeps the queues growing.
    proof fn lemma_split_queues(&self, prev: &CodeSplitter, c0: ChunkUkey, x: ModuleIdentifier, d: ModuleIdentifier, chunk: ChunkUkey, new_group: ChunkGroupUkey)
        requires
            self.split_step(prev, c0, x, d, chunk, new_group),
        ensures
            self.queues_grew(prev),
            self.pending_add(chunk, d, None),
            forall|b: ChunkUkey, y: ModuleIdentifier| #[trigger] prev.chunk_has(b, y) ==> self.chunk_has(b, y),
            forall|b: ChunkUkey, y: ModuleIdentifier| #[trigger] self.chunk_has(b, y) ==> prev.chunk_has(b, y),
            self.graph() == prev.graph(),
    {
        let cg = self.compilation.chunk_graph;
        let pcg = prev.compilation.chunk_graph;
        assert forall|i: int| 0 <= i < prev.queue_delayed.len() implies #[trigger] self.queue_delayed@[i] == prev.queue_delayed@[i] by {
        }
        let last = self.queue_delayed.len() - 1;
        assert(Self::adds(self.queue_delayed@[last as int], chunk, d));
        assert forall|b: ChunkUkey, y: ModuleIdentifier| #[trigger] prev.chunk_has(b, y) implies self.chunk_has(b, y) by {
            assert(pcg.has_chunk(b));
        }
        assert forall|b: ChunkUkey, y: ModuleIdentifier| #[trigger] self.chunk_has(b, y) implies prev.chunk_has(b, y) by {
            if b < prev.num_chunks() {
                assert(pcg.has_chunk(b));
            } else {
                assert(!pcg.has_chunk(b));
            }
        }
    }

    /// A new split point keeps every root in its chunk or queued.
    proof fn lemma_split_roots(&self, prev: &CodeSplitter, c0: ChunkUkey, x: ModuleIdentifier, d: ModuleIdentifier, chunk: ChunkUkey, new_group: ChunkGroupUkey)
        requires
            self.split_step(prev, c0, x, d, chunk, new_group),
            prev.law_roots(None),
        ensures
            self.law_roots(None),
    {
        self.lemma_split_queues(prev, c0, x, d, chunk, new_group);
        self.lemma_pending_grow(prev);
        let cg = self.compilation.chunk_graph;
        let pcg = prev.compilation.chunk_graph;
        assert forall|c: ChunkUkey, r: ModuleIdentifier|
            c < self.num_chunks() && #[trigger] is_root(cg, c, r)
            implies self.chunk_has(c, r) || self.pending_add(c, r, None) by {
            if r == d && cg.split_points()[r] == c && cg.split_points().contains_key(r) {
            } else if c < prev.num_chunks() {
                assert(pcg.has_chunk(c));
                assert(is_root(pcg, c, r));
                if !prev.chunk_has(c, r) {
                    assert(prev.pending_add(c, r, None));
                }
            } else {
                assert(c == chunk);
                assert(!pcg.has_chunk(c));
                if cg.has_chunk(c) && cg.entry_modules(c).contains_key(r) {
                    assert(false);
                }
                assert(pcg.split_points().contains_key(r));
                assert(pcg.split_points()[r] < prev.num_chunks());
            }
        }
    }


    /// A new split point is recorded with its chunk and a relation to its importer's chunk.
    proof fn lemma_split_points(&self, prev: &CodeSplitter, c0: ChunkUkey, x: ModuleIdentifier, d: ModuleIdentifier, chunk: ChunkUkey, new_group: ChunkGroupUkey)
        requires
            self.split_step(prev, c0, x, d, chunk, new_group),
            prev.law_split_points(),
        ensures
            self.law_split_points(),
    {
        reveal(CodeSplitter::law_split_points);
        self.lemma_split_queues(prev, c0, x, d, chunk, new_group);
        let sp = self.compilation.chunk_graph.split_points();
        let psp = prev.compilation.chunk_graph.split_points();
        assert forall|e: ModuleIdentifier| #[trigger] self.split_point_modules@.contains(e) implies {
            &&& sp.contains_key(e)
            &&& sp[e] < self.num_chunks()
            &&& exists|b: ChunkUkey, y: ModuleIdentifier|
                #![trigger self.edges().contains((sp[e], b)), self.chunk_has(b, y)]
                self.edges().contains((sp[e], b)) && self.chunk_has(b, y)
                    && self.module_dyn_deps(y).contains(e)
        } by {
            if e == d {
                assert(self.edges().contains((sp[e], c0)));
                assert(self.chunk_has(c0, x));
                assert(self.module_dyn_deps(x).contains(e));
            } else {
                assert(prev.split_point_modules@.contains(e));
                let (b, y) = choose|b: ChunkUkey, y: ModuleIdentifier|
                    #![trigger prev.edges().contains((psp[e], b)), prev.chunk_has(b, y)]
                    prev.edges().contains((psp[e], b)) && prev.chunk_has(b, y)
                        && prev.module_dyn_deps(y).contains(e);
                assert(self.chunk_has(b, y));
                assert(self.edges().contains((sp[e], b)));
                assert(self.module_dyn_deps(y).contains(e));
            }
        }
    }

    /// A new split point keeps the recorded chunks of other modules.
    proof fn lemma_split_entries(&self, prev: &CodeSplitter, c0: ChunkUkey, x: ModuleIdentifier, d: ModuleIdentifier, chunk: ChunkUkey, new_group: ChunkGroupUkey)
        requires
            self.split_step(prev, c0, x, d, chunk, new_group),
            prev.law_split_entries(),
        ensures
            self.law_split_entries(),
    {
        reveal(CodeSplitter::law_split_entries);
        let sp = self.compilation.chunk_graph.split_points();
        let pcg = prev.compilation.chunk_graph;
        assert forall|m: ModuleIdentifier| #[trigger]
            sp.contains_key(m) && !self.split_point_modules@.contains(m) implies {
                &&& self.compilation.chunk_graph.has_chunk(sp[m])
                &&& self.compilation.chunk_graph.entry_modules(sp[m]).contains_key(m)
            } by {
            assert(pcg.split_points().contains_key(m));
            assert(pcg.has_chunk(pcg.split_points()[m]));
        }
    }

    /// A new split point keeps every relation explained, and explains the new one.
    proof fn lemma_split_relations(&self, prev: &CodeSplitter, c0: ChunkUkey, x: ModuleIdentifier, d: ModuleIdentifier, chunk: ChunkUkey, new_group: ChunkGroupUkey)
        requires
            self.split_step(prev, c0, x, d, chunk, new_group),
            prev.law_relations(),
        ensures
            self.law_relations(),
    {
        reveal(CodeSplitter::law_relations);
        self.lemma_split_queues(prev, c0, x, d, chunk, new_group);
        let sp = self.compilation.chunk_graph.split_points();
        let psp = prev.compilation.chunk_graph.split_points();
        assert forall|a: ChunkUkey, b: ChunkUkey| #[trigger] self.edges().contains((a, b)) implies {
            &&& b < self.num_chunks()
            &&& exists|e: ModuleIdentifier, y: ModuleIdentifier|
                #![trigger self.split_point_modules@.contains(e), self.chunk_has(b, y)]
                self.split_point_modules@.contains(e) && sp[e] == a && self.chunk_has(b, y)
                    && self.module_dyn_deps(y).contains(e)
        } by {
            if (a, b) == (chunk, c0) {
                assert(self.split_point_modules@.contains(d));
                assert(self.chunk_has(c0, x));
                assert(self.module_dyn_deps(x).contains(d));
            } else {
                assert(prev.edges().contains((a, b)));
                let (e, y) = choose|e: ModuleIdentifier, y: ModuleIdentifier|
                    #![trigger prev.split_point_modules@.contains(e), prev.chunk_has(b, y)]
                    prev.split_point_modules@.contains(e) && psp[e] == a && prev.chunk_has(b, y)
                        && prev.module_dyn_deps(y).contains(e);
                assert(e != d);
                assert(self.chunk_has(b, y));
                assert(self.split_point_modules@.contains(e));
                assert(self.module_dyn_deps(y).contains(e));
            }
        }
    }

    /// A new split point keeps the order indices in order.
    proof fn lemma_split_orders(&self, prev: &CodeSplitter, c0: ChunkUkey, x: ModuleIdentifier, d: ModuleIdentifier, chunk: ChunkUkey, new_group: ChunkGroupUkey)
        requires
            self.split_step(prev, c0, x, d, chunk, new_group),
            prev.law_orders(None),
        ensures
            self.law_orders(None),
    {
        self.lemma_split_queues(prev, c0, x, d, chunk, new_group);
        self.lemma_pending_grow(prev);
        self.lemma_module_orders_frame(prev);
        assert forall|h: ChunkGroupUkey, y: ModuleIdentifier|
            h < self.compilation.num_groups() && #[trigger] self.group(h).module_pre_order_indices@.contains_key(y) implies {
                &&& self.group(h).module_pre_order_indices@[y] < self.group(h).next_pre_order_index
                &&& (self.group(h).module_post_order_indices@.contains_key(y) || self.pending_leave(h, y, None))
            } by {
            assert(h < prev.compilation.num_groups());
            assert(prev.group(h).module_pre_order_indices@.contains_key(y));
            if !prev.group(h).module_post_order_indices@.contains_key(y) {
                assert(prev.pending_leave(h, y, None));
            }
        }
        assert forall|h: ChunkGroupUkey, m1: ModuleIdentifier, m2: ModuleIdentifier|
            h < self.compilation.num_groups() && m1 != m2
                && #[trigger] self.group(h).module_pre_order_indices@.contains_key(m1)
                && #[trigger] self.group(h).module_pre_order_indices@.contains_key(m2)
            implies self.group(h).module_pre_order_indices@[m1] != self.group(h).module_pre_order_indices@[m2] by {
            assert(h < prev.compilation.num_groups());
            assert(prev.group(h).module_pre_order_indices@.contains_key(m1));
            assert(prev.group(h).module_pre_order_indices@.contains_key(m2));
        }
        assert forall|h: ChunkGroupUkey, y: ModuleIdentifier|
            h < self.compilation.num_groups() && #[trigger] self.group(h).module_post_order_indices@.contains_key(y) implies {
                &&& self.group(h).module_post_order_indices@[y] < self.group(h).next_post_order_index
                &&& self.group(h).module_pre_order_indices@.contains_key(y)
            } by {
            assert(h < prev.compilation.num_groups());
            assert(prev.group(h).module_post_order_indices@.contains_key(y));
        }
        assert forall|h: ChunkGroupUkey, m1: ModuleIdentifier, m2: ModuleIdentifier|
            h < self.compilation.num_groups() && m1 != m2
                && #[trigger] self.group(h).module_post_order_indices@.contains_key(m1)
                && #[trigger] self.group(h).module_post_order_indices@.contains_key(m2)
            implies self.group(h).module_post_order_indices@[m1] != self.group(h).module_post_order_indices@[m2] by {
            assert(h < prev.compilation.num_groups());
            assert(prev.group(h).module_post_order_indices@.contains_key(m1));
            assert(prev.group(h).module_post_order_indices@.contains_key(m2));
        }
    }

    /// A new split point keeps what the members owe, and makes the split point's importer
    /// owe one dynamic import less.
    proof fn lemma_split_members(&self, prev: &CodeSplitter, c0: ChunkUkey, x: ModuleIdentifier, d: ModuleIdentifier, chunk: ChunkUkey, new_group: ChunkGroupUkey, k: int)
        requires
            self.split_step(prev, c0, x, d, chunk, new_group),
            prev.law_processing(c0, x, k + 1),
            0 <= k < prev.module_dyn_deps(x).len(),
            prev.module_dyn_deps(x)[k] == d,
        ensures
            forall|c: ChunkUkey, m: ModuleIdentifier| #[trigger]
                self.chunk_has(c, m) ==> self.member_entered(m, None),
            forall|c: ChunkUkey, m: ModuleIdentifier| #[trigger]
                self.chunk_has(c, m) && (c != c0 || m != x) ==> self.member_deps(c, m, None),
            forall|j: int|
                0 <= j < self.module_deps(x).len() ==> self.chunk_has(c0, #[trigger] self.module_deps(x)[j])
                    || self.pending_add(c0, self.module_deps(x)[j], None),
            forall|j: int|
                k <= j < self.module_dyn_deps(x).len() ==> self.split_point_modules@.contains(
                    #[trigger] self.module_dyn_deps(x)[j],
                ),
    {
        self.lemma_split_queues(prev, c0, x, d, chunk, new_group);
        self.lemma_pending_grow(prev);
        assert forall|c: ChunkUkey, m: ModuleIdentifier| #[trigger]
            self.chunk_has(c, m) implies self.member_entered(m, None) by {
            assert(prev.chunk_has(c, m));
            assert(prev.member_entered(m, None));
            if prev.module_post(m) is None {
                let h = choose|h: ChunkGroupUkey| #[trigger] prev.pending_leave(h, m, None);
                assert(self.pending_leave(h, m, None));
            }
        }
        assert forall|c: ChunkUkey, m: ModuleIdentifier| #[trigger]
            self.chunk_has(c, m) && (c != c0 || m != x) implies self.member_deps(c, m, None) by {
            assert(prev.chunk_has(c, m));
            assert(prev.member_deps(c, m, None));
            assert forall|j: int| 0 <= j < self.module_deps(m).len() implies self.chunk_has(c, #[trigger] self.module_deps(m)[j])
                || self.pending_add(c, self.module_deps(m)[j], None) by {
                if !prev.chunk_has(c, prev.module_deps(m)[j]) {
                    assert(prev.pending_add(c, prev.module_deps(m)[j], None));
                }
            }
            assert forall|j: int| 0 <= j < self.module_dyn_deps(m).len() implies self.split_point_modules@.contains(
                #[trigger] self.module_dyn_deps(m)[j]) by {
                assert(prev.split_point_modules@.contains(prev.module_dyn_deps(m)[j]));
            }
        }
        assert forall|j: int|
            0 <= j < self.module_deps(x).len() implies self.chunk_has(c0, #[trigger] self.module_deps(x)[j])
                || self.pending_add(c0, self.module_deps(x)[j], None) by {
            if !prev.chunk_has(c0, prev.module_deps(x)[j]) {
                assert(prev.pending_add(c0, prev.module_deps(x)[j], None));
            }
        }
        assert forall|j: int|
            k <= j < self.module_dyn_deps(x).len() implies self.split_point_modules@.contains(
                #[trigger] self.module_dyn_deps(x)[j]) by {
            if j > k {
                assert(prev.split_point_modules@.contains(prev.module_dyn_deps(x)[j]));
            }
        }
    }

    /// One new split point keeps the law of processing, one dynamic import further on.
    proof fn lemma_split_law(&self, prev: &CodeSplitter, c0: ChunkUkey, x: ModuleIdentifier, d: ModuleIdentifier, chunk: ChunkUkey, new_group: ChunkGroupUkey, k: int)
        requires
            self.split_step(prev, c0, x, d, chunk, new_group),
            prev.law_processing(c0, x, k + 1),
            0 <= k < prev.module_dyn_deps(x).len(),
            prev.module_dyn_deps(x)[k] == d,
        ensures
            self.law_processing(c0, x, k),
    {
        self.lemma_split_sound(prev, c0, x, d, chunk, new_group);
        self.lemma_split_roots(prev, c0, x, d, chunk, new_group);
        self.lemma_split_points(prev, c0, x, d, chunk, new_group);
        self.lemma_split_entries(prev, c0, x, d, chunk, new_group);
        self.lemma_split_relations(prev, c0, x, d, chunk, new_group);
        self.lemma_split_orders(prev, c0, x, d, chunk, new_group);
        self.lemma_split_members(prev, c0, x, d, chunk, new_group, k);
        self.lemma_split_queues(prev, c0, x, d, chunk, new_group);
        assert(self.law_runtimes()) by {
            assert forall|c: int| 0 <= c < self.num_chunks() implies (#[trigger] self.compilation.chunk_by_ukey@[c]).runtime@.len() == 0 by {
                if c < prev.num_chunks() {
                    assert(prev.compilation.chunk_by_ukey@[c].runtime@.len() == 0);
                }
            }
        }
        assert(self.chunk_has(c0, x));
    }


    /// The module order indices stay in order while the modules and counters stay as they are.
    proof fn lemma_module_orders_frame(&self, prev: &CodeSplitter)
        requires
            prev.law_module_orders(),
            self.compilation.module_graph == prev.compilation.module_graph,
            self.next_free_module_pre_order_index == prev.next_free_module_pre_order_index,
            self.next_free_module_post_order_index == prev.next_free_module_post_order_index,
        ensures
            self.law_module_orders(),
    {
        assert forall|m: ModuleIdentifier|
            m < self.num_modules() && (#[trigger] self.module_pre(m)) is Some implies self.module_pre(
                m,
            ).unwrap() < self.next_free_module_pre_order_index by {
            assert(prev.module_pre(m) == self.module_pre(m));
        }
        assert forall|m1: ModuleIdentifier, m2: ModuleIdentifier|
            m1 < self.num_modules() && m2 < self.num_modules() && m1 != m2 && (#[trigger] self.module_pre(m1)) is Some
                && (#[trigger] self.module_pre(m2)) is Some implies self.module_pre(m1) != self.module_pre(m2) by {
            assert(prev.module_pre(m1) == self.module_pre(m1));
            assert(prev.module_pre(m2) == self.module_pre(m2));
        }
        assert forall|m: ModuleIdentifier|
            m < self.num_modules() && (#[trigger] self.module_post(m)) is Some implies self.module_post(
                m,
            ).unwrap() < self.next_free_module_post_order_index && self.module_pre(m) is Some by {
            assert(prev.module_post(m) == self.module_post(m));
            assert(prev.module_pre(m) == self.module_pre(m));
        }
        assert forall|m1: ModuleIdentifier, m2: ModuleIdentifier|
            m1 < self.num_modules() && m2 < self.num_modules() && m1 != m2 && (#[trigger] self.module_post(m1)) is Some
                && (#[trigger] self.module_post(m2)) is Some implies self.module_post(m1) != self.module_post(m2) by {
            assert(prev.module_post(m1) == self.module_post(m1));
            assert(prev.module_post(m2) == self.module_post(m2));
        }
    }


    /// The law while the static imports of module `x` of chunk `c0`, from the `k`-th on,
    /// have been queued.
    pub open spec fn law_queueing(&self, c0: ChunkUkey, x: ModuleIdentifier, k: int) -> bool {
        &&& self.law_before_process(c0, x)
        &&& forall|j: int|
            k <= j < self.module_deps(x).len() ==> self.pending_add(c0, #[trigger] self.module_deps(x)[j], None)
    }

    /// Queuing one more static import of a processed module keeps the law.
    proof fn lemma_push_dep_law(&self, prev: &CodeSplitter, c0: ChunkUkey, x: ModuleIdentifier, g: ChunkGroupUkey, k: int)
        requires
            prev.law_queueing(c0, x, k + 1),
            0 <= k < prev.module_deps(x).len(),
            x < prev.num_modules(),
            prev.module_deps(x)[k] < prev.num_modules(),
            self.queue@ == prev.queue@.push(
                QueueItem {
                    action: QueueAction::AddAndEnter,
                    chunk: c0,
                    chunk_group: g,
                    module_identifier: prev.module_deps(x)[k],
                },
            ),
            self.queue_delayed == prev.queue_delayed,
            self.compilation == prev.compilation,
            self.split_point_modules == prev.split_point_modules,
            self.chunk_relation_graph == prev.chunk_relation_graph,
            self.next_free_module_pre_order_index == prev.next_free_module_pre_order_index,
            self.next_free_module_post_order_index == prev.next_free_module_post_order_index,
        ensures
            self.law_queueing(c0, x, k),
    {
        let dep = prev.module_deps(x)[k];
        assert(self.queues_grew(prev)) by {
            assert forall|i: int| 0 <= i < prev.queue.len() implies #[trigger] self.queue@[i] == prev.queue@[i] by {
            }
        }
        self.lemma_pending_grow(prev);
        let last = self.queue.len() - 1;
        assert(Self::adds(self.queue@[last as int], c0, dep));
        assert(self.pending_add(c0, dep, None));
        let cg = self.compilation.chunk_graph;
        assert(prev.chunk_has(c0, x));
        assert(reachable(prev.graph(), cg, c0, x));
        assert(self.graph()[x as int] == self.module_deps(x));
        assert(self.graph()[x as int].contains(dep));
        lemma_reachable_step(self.graph(), cg, c0, x, dep);
        assert(self.law_sound(None)) by {
            assert forall|c: ChunkUkey, y: ModuleIdentifier| #[trigger] self.chunk_has(c, y) implies
                reachable(self.graph(), cg, c, y) by {
                assert(prev.chunk_has(c, y));
            }
            assert forall|i: int| 0 <= i < self.queue.len() && (#[trigger] self.queue@[i]).action == QueueAction::AddAndEnter implies
                reachable(self.graph(), cg, self.queue@[i].chunk, self.queue@[i].module_identifier) by {
                if i < prev.queue.len() {
                    assert(prev.queue@[i] == self.queue@[i]);
                }
            }
            assert forall|i: int| 0 <= i < self.queue_delayed.len() && (#[trigger] self.queue_delayed@[i]).action == QueueAction::AddAndEnter implies
                reachable(self.graph(), cg, self.queue_delayed@[i].chunk, self.queue_delayed@[i].module_identifier) by {
                assert(prev.queue_delayed@[i] == self.queue_delayed@[i]);
            }
        }
        assert(self.law_roots(None)) by {
            assert forall|c: ChunkUkey, r: ModuleIdentifier|
                c < self.num_chunks() && #[trigger] is_root(cg, c, r)
                implies self.chunk_has(c, r) || self.pending_add(c, r, None) by {
                if !prev.chunk_has(c, r) {
                    assert(prev.pending_add(c, r, None));
                }
            }
        }
        self.lemma_splits_frame(prev);
        self.lemma_module_orders_frame(prev);
        self.lemma_group_orders_frame(prev);
        assert forall|c: ChunkUkey, m: ModuleIdentifier| #[trigger]
            self.chunk_has(c, m) implies self.member_entered(m, None) by {
            assert(prev.chunk_has(c, m));
            assert(prev.member_entered(m, None));
            if prev.module_post(m) is None {
                let h = choose|h: ChunkGroupUkey| #[trigger] prev.pending_leave(h, m, None);
                assert(self.pending_leave(h, m, None));
            }
        }
        assert forall|c: ChunkUkey, m: ModuleIdentifier| #[trigger]
            self.chunk_has(c, m) && (c != c0 || m != x) implies self.member_deps(c, m, None) by {
            assert(prev.chunk_has(c, m));
            assert(prev.member_deps(c, m, None));
            assert forall|j: int| 0 <= j < self.module_deps(m).len() implies self.chunk_has(c, #[trigger] self.module_deps(m)[j])
                || self.pending_add(c, self.module_deps(m)[j], None) by {
                if !prev.chunk_has(c, prev.module_deps(m)[j]) {
                    assert(prev.pending_add(c, prev.module_deps(m)[j], None));
                }
            }
            assert forall|j: int| 0 <= j < self.module_dyn_deps(m).len() implies self.split_point_modules@.contains(
                #[trigger] self.module_dyn_deps(m)[j]) by {
                assert(prev.split_point_modules@.contains(prev.module_dyn_deps(m)[j]));
            }
        }
        assert forall|j: int|
            k <= j < self.module_deps(x).len() implies self.pending_add(c0, #[trigger] self.module_deps(x)[j], None) by {
            if j > k {
                assert(prev.pending_add(c0, prev.module_deps(x)[j], None));
            }
        }
    }


    /// The group order indices stay in order while the groups stay as they are and the
    /// queues only grow.
    proof fn lemma_group_orders_frame(&self, prev: &CodeSplitter)
        requires
            prev.law_group_orders(None),
            self.compilation.chunk_group_by_ukey == prev.compilation.chunk_group_by_ukey,
            self.queues_grew(prev),
        ensures
            self.law_group_orders(None),
    {
        self.lemma_pending_grow(prev);
        assert forall|h: ChunkGroupUkey, y: ModuleIdentifier|
            h < self.compilation.num_groups() && #[trigger] self.group(h).module_pre_order_indices@.contains_key(y) implies {
                &&& self.group(h).module_pre_order_indices@[y] < self.group(h).next_pre_order_index
                &&& (self.group(h).module_post_order_indices@.contains_key(y) || self.pending_leave(h, y, None))
            } by {
            assert(prev.group(h) == self.group(h));
            assert(prev.group(h).module_pre_order_indices@.contains_key(y));
            if !prev.group(h).module_post_order_indices@.contains_key(y) {
                assert(prev.pending_leave(h, y, None));
            }
        }
        assert forall|h: ChunkGroupUkey, m1: ModuleIdentifier, m2: ModuleIdentifier|
            h < self.compilation.num_groups() && m1 != m2
                && #[trigger] self.group(h).module_pre_order_indices@.contains_key(m1)
                && #[trigger] self.group(h).module_pre_order_indices@.contains_key(m2)
            implies self.group(h).module_pre_order_indices@[m1] != self.group(h).module_pre_order_indices@[m2] by {
            assert(prev.group(h) == self.group(h));
            assert(prev.group(h).module_pre_order_indices@.contains_key(m1));
            assert(prev.group(h).module_pre_order_indices@.contains_key(m2));
        }
        assert forall|h: ChunkGroupUkey, y: ModuleIdentifier|
            h < self.compilation.num_groups() && #[trigger] self.group(h).module_post_order_indices@.contains_key(y) implies {
                &&& self.group(h).module_post_order_indices@[y] < self.group(h).next_post_order_index
                &&& self.group(h).module_pre_order_indices@.contains_key(y)
            } by {
            assert(prev.group(h) == self.group(h));
            assert(prev.group(h).module_post_order_indices@.contains_key(y));
        }
        assert forall|h: ChunkGroupUkey, m1: ModuleIdentifier, m2: ModuleIdentifier|
            h < self.compilation.num_groups() && m1 != m2
                && #[trigger] self.group(h).module_post_order_indices@.contains_key(m1)
                && #[trigger] self.group(h).module_post_order_indices@.contains_key(m2)
            implies self.group(h).module_post_order_indices@[m1] != self.group(h).module_post_order_indices@[m2] by {
            assert(prev.group(h) == self.group(h));
            assert(prev.group(h).module_post_order_indices@.contains_key(m1));
            assert(prev.group(h).module_post_order_indices@.contains_key(m2));
        }
    }

    /// `self` is `old` after module `item.module_identifier` was put into chunk `item.chunk`.
    pub open spec fn add_step(&self, old: &CodeSplitter, item: QueueItem) -> bool {
        let cg = self.compilation.chunk_graph;
        let ocg = old.compilation.chunk_graph;
        &&& self.queue == old.queue
        &&& self.queue_delayed == old.queue_delayed
        &&& self.split_point_modules == old.split_point_modules
        &&& self.chunk_relation_graph == old.chunk_relation_graph
        &&& self.next_free_module_pre_order_index == old.next_free_module_pre_order_index
        &&& self.next_free_module_post_order_index == old.next_free_module_post_order_index
        &&& self.compilation.module_graph == old.compilation.module_graph
        &&& self.compilation.chunk_by_ukey == old.compilation.chunk_by_ukey
        &&& self.compilation.chunk_group_by_ukey == old.compilation.chunk_group_by_ukey
        &&& cg.split_points() == ocg.split_points()
        &&& cg.chunk_graph_chunk_by_chunk_ukey@.dom() == ocg.chunk_graph_chunk_by_chunk_ukey@.dom()
        &&& forall|c: ChunkUkey| #[trigger]
            cg.chunk_modules(c) == if c == item.chunk {
                ocg.chunk_modules(c).insert(item.module_identifier)
            } else {
                ocg.chunk_modules(c)
            }
        &&& forall|c: ChunkUkey| #[trigger] cg.entry_modules(c) == ocg.entry_modules(c)
    }

    /// An item in hand that adds nothing to leave does not count for the group orders.
    proof fn lemma_group_orders_drop(&self, item: QueueItem)
        requires
            self.law_group_orders(Some(item)),
            item.action == QueueAction::AddAndEnter,
        ensures
            self.law_group_orders(None),
    {
        assert forall|h: ChunkGroupUkey, y: ModuleIdentifier|
            h < self.compilation.num_groups() && #[trigger] self.group(h).module_pre_order_indices@.contains_key(y) implies {
                &&& self.group(h).module_pre_order_indices@[y] < self.group(h).next_pre_order_index
                &&& (self.group(h).module_post_order_indices@.contains_key(y) || self.pending_leave(h, y, None))
            } by {
            if !self.group(h).module_post_order_indices@.contains_key(y) {
                assert(self.pending_leave(h, y, Some(item)));
            }
        }
    }

    /// Putting the module of an addition in hand into its chunk keeps the law, with that
    /// module still to be entered.
    proof fn lemma_add_law(&self, old: &CodeSplitter, item: QueueItem)
        requires
            self.add_step(old, item),
            old.law(Some(item)),
            item.action == QueueAction::AddAndEnter,
            old.refs_ok(item),
            old.compilation.wf(),
        ensures
            self.law_before_enter(item.chunk, item.module_identifier),
    {
        let c0 = item.chunk;
        let x = item.module_identifier;
        let cg = self.compilation.chunk_graph;
        let ocg = old.compilation.chunk_graph;
        assert(self.graph() == old.graph());
        assert forall|c: ChunkUkey, r: ModuleIdentifier| #[trigger] is_root(ocg, c, r) implies is_root(cg, c, r) by {
        }
        assert forall|c: ChunkUkey, r: ModuleIdentifier| #[trigger] is_root(cg, c, r) implies is_root(ocg, c, r) by {
        }
        lemma_reachable_mono(old.graph(), ocg, cg);
        lemma_reachable_mono(old.graph(), cg, ocg);
        assert(ocg.has_chunk(c0));
        assert forall|c: ChunkUkey, m: ModuleIdentifier| #[trigger] self.chunk_has(c, m) implies
            old.chunk_has(c, m) || (c == c0 && m == x) by {
        }
        assert forall|c: ChunkUkey, m: ModuleIdentifier| #[trigger] old.chunk_has(c, m) implies
            self.chunk_has(c, m) by {
        }
        assert forall|c: ChunkUkey, m: ModuleIdentifier| #[trigger] old.pending_add(c, m, Some(item)) implies
            self.chunk_has(c, m) || self.pending_add(c, m, None) by {
            if !(c == c0 && m == x) {
                assert(old.pending_add(c, m, None));
                if exists|i: int| 0 <= i < old.queue.len() && Self::adds(#[trigger] old.queue@[i], c, m) {
                    let i = choose|i: int| 0 <= i < old.queue.len() && Self::adds(#[trigger] old.queue@[i], c, m);
                    assert(Self::adds(self.queue@[i], c, m));
                } else {
                    let i = choose|i: int| 0 <= i < old.queue_delayed.len() && Self::adds(#[trigger] old.queue_delayed@[i], c, m);
                    assert(Self::adds(self.queue_delayed@[i], c, m));
                }
            }
        }
        assert forall|g: ChunkGroupUkey, m: ModuleIdentifier| #[trigger] old.pending_leave(g, m, Some(item)) implies
            self.pending_leave(g, m, None) by {
            let i = choose|i: int| 0 <= i < old.queue.len() && Self::leaves(#[trigger] old.queue@[i], g, m);
            assert(Self::leaves(self.queue@[i], g, m));
        }
        assert(self.law_sound(None)) by {
            assert forall|c: ChunkUkey, y: ModuleIdentifier| #[trigger] self.chunk_has(c, y) implies
                reachable(self.graph(), cg, c, y) by {
                if old.chunk_has(c, y) {
                    assert(reachable(old.graph(), ocg, c, y));
                } else {
                    assert(reachable(old.graph(), ocg, c0, x));
                }
            }
            assert forall|i: int| 0 <= i < self.queue.len() && (#[trigger] self.queue@[i]).action == QueueAction::AddAndEnter implies
                reachable(self.graph(), cg, self.queue@[i].chunk, self.queue@[i].module_identifier) by {
                assert(old.queue@[i].action == QueueAction::AddAndEnter);
                assert(reachable(old.graph(), ocg, old.queue@[i].chunk, old.queue@[i].module_identifier));
            }
            assert forall|i: int| 0 <= i < self.queue_delayed.len() && (#[trigger] self.queue_delayed@[i]).action == QueueAction::AddAndEnter implies
                reachable(self.graph(), cg, self.queue_delayed@[i].chunk, self.queue_delayed@[i].module_identifier) by {
                assert(old.queue_delayed@[i].action == QueueAction::AddAndEnter);
                assert(reachable(old.graph(), ocg, old.queue_delayed@[i].chunk, old.queue_delayed@[i].module_identifier));
            }
        }
        assert(self.law_roots(None)) by {
            assert forall|c: ChunkUkey, r: ModuleIdentifier|
                c < self.num_chunks() && #[trigger] is_root(cg, c, r)
                implies self.chunk_has(c, r) || self.pending_add(c, r, None) by {
                assert(is_root(ocg, c, r));
                if !old.chunk_has(c, r) {
                    assert(old.pending_add(c, r, Some(item)));
                }
            }
        }
        assert(self.splits_frame(old));
        self.lemma_splits_frame(old);
        self.lemma_module_orders_frame(old);
        old.lemma_group_orders_drop(item);
        assert(self.queues_grew(old));
        self.lemma_group_orders_frame(old);
        assert(self.law_runtimes()) by {
            assert forall|c: int| 0 <= c < self.num_chunks() implies (#[trigger] self.compilation.chunk_by_ukey@[c]).runtime@.len() == 0 by {
                assert(old.compilation.chunk_by_ukey@[c].runtime@.len() == 0);
            }
        }
        assert forall|c: ChunkUkey, m: ModuleIdentifier| #[trigger]
            self.chunk_has(c, m) && (c != c0 || m != x) implies self.member_deps(c, m, None) && self.member_entered(m, None) by {
            assert(old.chunk_has(c, m));
            assert(old.member_deps(c, m, Some(item)));
            assert(old.member_entered(m, Some(item)));
            assert forall|j: int| 0 <= j < self.module_deps(m).len() implies self.chunk_has(c, #[trigger] self.module_deps(m)[j])
                || self.pending_add(c, self.module_deps(m)[j], None) by {
                let dep = old.module_deps(m)[j];
                if !old.chunk_has(c, dep) {
                    assert(old.pending_add(c, dep, Some(item)));
                }
            }
            assert forall|j: int| 0 <= j < self.module_dyn_deps(m).len() implies self.split_point_modules@.contains(
                #[trigger] self.module_dyn_deps(m)[j]) by {
                assert(old.split_point_modules@.contains(old.module_dyn_deps(m)[j]));
            }
            if old.module_post(m) is None {
                let h = choose|h: ChunkGroupUkey| #[trigger] old.pending_leave(h, m, Some(item));
                assert(self.pending_leave(h, m, None));
            }
        }
    }

    /// An addition in hand whose module is in its chunk already can be dropped.
    proof fn lemma_drop_added(&self, item: QueueItem)
        requires
            self.law(Some(item)),
            item.action == QueueAction::AddAndEnter,
            self.refs_ok(item),
            self.compilation.wf(),
            self.chunk_has(item.chunk, item.module_identifier),
        ensures
            self.law(None),
    {
        let c0 = item.chunk;
        let x = item.module_identifier;
        let cg = self.compilation.chunk_graph;
        assert(cg.chunk_modules(c0).insert(x) =~= cg.chunk_modules(c0));
        assert(self.add_step(self, item));
        self.lemma_add_law(self, item);
        assert(self.member_deps(c0, x, Some(item)));
        assert(self.member_entered(x, Some(item)));
        assert forall|j: int| 0 <= j < self.module_deps(x).len() implies self.chunk_has(c0, #[trigger] self.module_deps(x)[j])
            || self.pending_add(c0, self.module_deps(x)[j], None) by {
        }
        if self.module_post(x) is None {
            let h = choose|h: ChunkGroupUkey| #[trigger] self.pending_leave(h, x, Some(item));
            assert(self.pending_leave(h, x, None));
        }
        assert(self.member_deps(c0, x, None));
        assert(self.member_entered(x, None));
    }

    /// Taking the last queued item into hand keeps the law.
    proof fn lemma_pop_law(&self, old: &CodeSplitter, item: QueueItem)
        requires
            old.law(None),
            old.queue.len() > 0,
            item == old.queue@.last(),
            self.queue@ == old.queue@.drop_last(),
            self.queue_delayed == old.queue_delayed,
            self.compilation == old.compilation,
            self.split_point_modules == old.split_point_modules,
            self.chunk_relation_graph == old.chunk_relation_graph,
            self.next_free_module_pre_order_index == old.next_free_module_pre_order_index,
            self.next_free_module_post_order_index == old.next_free_module_post_order_index,
        ensures
            self.law(Some(item)),
    {
        let n = old.queue.len() - 1;
        assert forall|c: ChunkUkey, m: ModuleIdentifier| #[trigger] old.pending_add(c, m, None) implies
            self.pending_add(c, m, Some(item)) by {
            if exists|i: int| 0 <= i < old.queue.len() && Self::adds(#[trigger] old.queue@[i], c, m) {
                let i = choose|i: int| 0 <= i < old.queue.len() && Self::adds(#[trigger] old.queue@[i], c, m);
                if i < n {
                    assert(Self::adds(self.queue@[i], c, m));
                }
            } else {
                let i = choose|i: int| 0 <= i < old.queue_delayed.len() && Self::adds(#[trigger] old.queue_delayed@[i], c, m);
                assert(Self::adds(self.queue_delayed@[i], c, m));
            }
        }
        assert forall|g: ChunkGroupUkey, m: ModuleIdentifier| #[trigger] old.pending_leave(g, m, None) implies
            self.pending_leave(g, m, Some(item)) by {
            let i = choose|i: int| 0 <= i < old.queue.len() && Self::leaves(#[trigger] old.queue@[i], g, m);
            if i < n {
                assert(Self::leaves(self.queue@[i], g, m));
            }
        }
        let cg = self.compilation.chunk_graph;
        assert(self.law_sound(Some(item))) by {
            assert forall|c: ChunkUkey, y: ModuleIdentifier| #[trigger] self.chunk_has(c, y) implies
                reachable(self.graph(), cg, c, y) by {
                assert(old.chunk_has(c, y));
            }
            assert forall|i: int| 0 <= i < self.queue.len() && (#[trigger] self.queue@[i]).action == QueueAction::AddAndEnter implies
                reachable(self.graph(), cg, self.queue@[i].chunk, self.queue@[i].module_identifier) by {
                assert(old.queue@[i] == self.queue@[i]);
            }
            assert forall|i: int| 0 <= i < self.queue_delayed.len() && (#[trigger] self.queue_delayed@[i]).action == QueueAction::AddAndEnter implies
                reachable(self.graph(), cg, self.queue_delayed@[i].chunk, self.queue_delayed@[i].module_identifier) by {
                assert(old.queue_delayed@[i] == self.queue_delayed@[i]);
            }
            if item.action == QueueAction::AddAndEnter {
                assert(old.queue@[n] == item);
            }
        }
        assert(self.law_roots(Some(item))) by {
            assert forall|c: ChunkUkey, r: ModuleIdentifier|
                c < self.num_chunks() && #[trigger] is_root(cg, c, r)
                implies self.chunk_has(c, r) || self.pending_add(c, r, Some(item)) by {
                if !old.chunk_has(c, r) {
                    assert(old.pending_add(c, r, None));
                }
            }
        }
        assert(self.splits_frame(old));
        self.lemma_splits_frame(old);
        self.lemma_module_orders_frame(old);
        assert(self.law_group_orders(Some(item))) by {
            assert forall|h: ChunkGroupUkey, y: ModuleIdentifier|
                h < self.compilation.num_groups() && #[trigger] self.group(h).module_pre_order_indices@.contains_key(y) implies {
                    &&& self.group(h).module_pre_order_indices@[y] < self.group(h).next_pre_order_index
                    &&& (self.group(h).module_post_order_indices@.contains_key(y) || self.pending_leave(h, y, Some(item)))
                } by {
                assert(old.group(h) == self.group(h));
                assert(old.group(h).module_pre_order_indices@.contains_key(y));
                if !old.group(h).module_post_order_indices@.contains_key(y) {
                    assert(old.pending_leave(h, y, None));
                }
            }
            assert forall|h: ChunkGroupUkey, m1: ModuleIdentifier, m2: ModuleIdentifier|
                h < self.compilation.num_groups() && m1 != m2
                    && #[trigger] self.group(h).module_pre_order_indices@.contains_key(m1)
                    && #[trigger] self.group(h).module_pre_order_indices@.contains_key(m2)
                implies self.group(h).module_pre_order_indices@[m1] != self.group(h).module_pre_order_indices@[m2] by {
                assert(old.group(h) == self.group(h));
                assert(old.group(h).module_pre_order_indices@.contains_key(m1));
                assert(old.group(h).module_pre_order_indices@.contains_key(m2));
            }
            assert forall|h: ChunkGroupUkey, y: ModuleIdentifier|
                h < self.compilation.num_groups() && #[trigger] self.group(h).module_post_order_indices@.contains_key(y) implies {
                    &&& self.group(h).module_post_order_indices@[y] < self.group(h).next_post_order_index
                    &&& self.group(h).module_pre_order_indices@.contains_key(y)
                } by {
                assert(old.group(h) == self.group(h));
                assert(old.group(h).module_post_order_indices@.contains_key(y));
            }
            assert forall|h: ChunkGroupUkey, m1: ModuleIdentifier, m2: ModuleIdentifier|
                h < self.compilation.num_groups() && m1 != m2
                    && #[trigger] self.group(h).module_post_order_indices@.contains_key(m1)
                    && #[trigger] self.group(h).module_post_order_indices@.contains_key(m2)
                implies self.group(h).module_post_order_indices@[m1] != self.group(h).module_post_order_indices@[m2] by {
                assert(old.group(h) == self.group(h));
                assert(old.group(h).module_post_order_indices@.contains_key(m1));
                assert(old.group(h).module_post_order_indices@.contains_key(m2));
            }
        }
        assert forall|c: ChunkUkey, m: ModuleIdentifier| #[trigger]
            self.chunk_has(c, m) implies self.member_deps(c, m, Some(item)) && self.member_entered(m, Some(item)) by {
            assert(old.chunk_has(c, m));
            assert(old.member_deps(c, m, None));
            assert(old.member_entered(m, None));
            assert forall|j: int| 0 <= j < self.module_deps(m).len() implies self.chunk_has(c, #[trigger] self.module_deps(m)[j])
                || self.pending_add(c, self.module_deps(m)[j], Some(item)) by {
                let dep = old.module_deps(m)[j];
                if !old.chunk_has(c, dep) {
                    assert(old.pending_add(c, dep, None));
                }
            }
            assert forall|j: int| 0 <= j < self.module_dyn_deps(m).len() implies self.split_point_modules@.contains(
                #[trigger] self.module_dyn_deps(m)[j]) by {
                assert(old.split_point_modules@.contains(old.module_dyn_deps(m)[j]));
            }
            if old.module_post(m) is None {
                let h = choose|h: ChunkGroupUkey| #[trigger] old.pending_leave(h, m, None);
                assert(self.pending_leave(h, m, Some(item)));
            }
        }
    }

    /// The chunk graph, chunks and groups of `self` extend those of `old` only by new empty
    /// chunks and groups, and keep the order indices and entry chunks of the old groups.
    pub open spec fn prepare_frame(&self, old: &CodeSplitter) -> bool {
        let cg = self.compilation.chunk_graph;
        let ocg = old.compilation.chunk_graph;
        &&& cg.split_points() == ocg.split_points()
        &&& forall|c: ChunkUkey| #[trigger] ocg.has_chunk(c) ==> cg.has_chunk(c)
            && cg.entry_modules(c) == ocg.entry_modules(c) && cg.chunk_modules(c) == ocg.chunk_modules(c)
        &&& forall|c: ChunkUkey| #[trigger] cg.has_chunk(c) && !ocg.has_chunk(c)
            ==> cg.entry_modules(c) == Map::<ModuleIdentifier, ChunkGroupUkey>::empty()
            && cg.chunk_modules(c) == Set::<ModuleIdentifier>::empty()
        &&& self.num_chunks() >= old.num_chunks()
        &&& forall|c: int| 0 <= c < old.num_chunks() ==> (#[trigger] self.compilation.chunk_by_ukey@[c]).runtime
            == old.compilation.chunk_by_ukey@[c].runtime
        &&& forall|c: int| old.num_chunks() <= c < self.num_chunks() ==> (#[trigger] self.compilation.chunk_by_ukey@[c]).runtime@.len() == 0
        &&& self.compilation.num_groups() >= old.compilation.num_groups()
        &&& forall|h: ChunkGroupUkey| h < old.compilation.num_groups() ==> {
            &&& (#[trigger] self.group(h)).module_pre_order_indices == old.group(h).module_pre_order_indices
            &&& self.group(h).module_post_order_indices == old.group(h).module_post_order_indices
            &&& self.group(h).entry_point_chunk == old.group(h).entry_point_chunk
        }
        &&& forall|h: ChunkGroupUkey| old.compilation.num_groups() <= h < self.compilation.num_groups() ==> {
            &&& (#[trigger] self.group(h)).module_pre_order_indices@ == Map::<ModuleIdentifier, usize>::empty()
            &&& self.group(h).module_post_order_indices@ == Map::<ModuleIdentifier, usize>::empty()
        }
    }

    /// New empty chunks and groups keep what the preparation has built.
    proof fn lemma_prepare_frame(
        &self,
        old: &CodeSplitter,
        pending: Seq<ModuleIdentifier>,
        cur: ChunkUkey,
        input: Seq<(ChunkGroupUkey, Vec<ModuleIdentifier>)>,
        extra: Seq<ModuleIdentifier>,
        cur2: ChunkUkey,
    )
        requires
            self.prepare_frame(old),
            old.prepared_but(pending, cur),
            old.input_covers_but(input, extra, cur2),
            forall|k: int| 0 <= k < input.len() ==> (#[trigger] input[k]).0 < old.compilation.num_groups(),
        ensures
            self.prepared_but(pending, cur),
            self.input_covers_but(input, extra, cur2),
    {
        let cg = self.compilation.chunk_graph;
        let ocg = old.compilation.chunk_graph;
        assert forall|c: ChunkUkey| #[trigger] cg.has_chunk(c) implies cg.chunk_modules(c) == Set::<ModuleIdentifier>::empty() by {
            if ocg.has_chunk(c) {
                assert(ocg.chunk_modules(c) == Set::<ModuleIdentifier>::empty());
            }
        }
        assert forall|c: int| 0 <= c < self.num_chunks() implies (#[trigger] self.compilation.chunk_by_ukey@[c]).runtime@.len() == 0 by {
            if c < old.num_chunks() {
                assert(old.compilation.chunk_by_ukey@[c].runtime@.len() == 0);
            }
        }
        assert forall|h: ChunkGroupUkey| h < self.compilation.num_groups() implies (#[trigger] self.group(h)).module_pre_order_indices@
            == Map::<ModuleIdentifier, usize>::empty() && self.group(h).module_post_order_indices@
            == Map::<ModuleIdentifier, usize>::empty() by {
            if h < old.compilation.num_groups() {
                assert(old.group(h).module_pre_order_indices@ == Map::<ModuleIdentifier, usize>::empty());
            }
        }
        assert forall|m: ModuleIdentifier| #[trigger] cg.split_points().contains_key(m) implies cg.has_chunk(cg.split_points()[m]) && (
            cg.entry_modules(cg.split_points()[m]).contains_key(m) || (pending.contains(m)
                && cg.split_points()[m] == cur)) by {
            assert(ocg.split_points().contains_key(m));
            assert(ocg.has_chunk(ocg.split_points()[m]));
        }
        assert forall|c: ChunkUkey, m: ModuleIdentifier|
            cg.has_chunk(c) && #[trigger] cg.entry_modules(c).contains_key(m) implies (c == cur2
                && extra.contains(m)) || exists|k: int, j: int|
                0 <= k < input.len() && 0 <= j < input[k].1.len() && self.group(input[k].0).entry_point_chunk
                    == Some(c) && #[trigger] input[k].1@[j] == m by {
            assert(ocg.has_chunk(c));
            assert(ocg.entry_modules(c).contains_key(m));
            if !(c == cur2 && extra.contains(m)) {
                let (k, j) = choose|k: int, j: int|
                    0 <= k < input.len() && 0 <= j < input[k].1.len() && old.group(input[k].0).entry_point_chunk
                        == Some(c) && #[trigger] input[k].1@[j] == m;
                assert(input[k].0 < old.compilation.num_groups());
                assert(self.group(input[k].0).entry_point_chunk == old.group(input[k].0).entry_point_chunk);
            }
        }
        assert forall|k: int, j: int|
            0 <= k < input.len() && 0 <= j < input[k].1.len() implies self.is_entry_of(input[k].0, #[trigger] input[k].1@[j]) by {
            assert(input[k].0 < old.compilation.num_groups());
            assert(self.group(input[k].0).entry_point_chunk == old.group(input[k].0).entry_point_chunk);
            assert(old.is_entry_of(input[k].0, input[k].1@[j]));
        }
    }

    /// Recording a pending entry module as starting the current chunk keeps what the
    /// preparation has built.
    proof fn lemma_prepare_split_point(
        &self,
        old: &CodeSplitter,
        m: ModuleIdentifier,
        cur: ChunkUkey,
        pending: Seq<ModuleIdentifier>,
        input: Seq<(ChunkGroupUkey, Vec<ModuleIdentifier>)>,
    )
        requires
            old.prepared_but(pending, cur),
            old.input_covers_but(input, Seq::empty(), 0),
            pending.contains(m),
            old.compilation.chunk_graph.has_chunk(cur),
            self.compilation.chunk_by_ukey == old.compilation.chunk_by_ukey,
            self.compilation.chunk_group_by_ukey == old.compilation.chunk_group_by_ukey,
            self.compilation.chunk_graph.chunk_graph_chunk_by_chunk_ukey
                == old.compilation.chunk_graph.chunk_graph_chunk_by_chunk_ukey,
            self.compilation.chunk_graph.split_points() == old.compilation.chunk_graph.split_points().insert(m, cur),
        ensures
            self.prepared_but(pending, cur),
            self.input_covers_but(input, Seq::empty(), 0),
    {
        let cg = self.compilation.chunk_graph;
        let ocg = old.compilation.chunk_graph;
        assert forall|c: ChunkUkey| #[trigger] cg.has_chunk(c) implies cg.chunk_modules(c) == Set::<ModuleIdentifier>::empty() by {
            assert(ocg.has_chunk(c));
        }
        assert forall|h: ChunkGroupUkey| h < self.compilation.num_groups() implies (#[trigger] self.group(h)).module_pre_order_indices@
            == Map::<ModuleIdentifier, usize>::empty() && self.group(h).module_post_order_indices@
            == Map::<ModuleIdentifier, usize>::empty() by {
            assert(old.group(h) == self.group(h));
        }
        assert forall|x: ModuleIdentifier| #[trigger] cg.split_points().contains_key(x) implies cg.has_chunk(cg.split_points()[x]) && (
            cg.entry_modules(cg.split_points()[x]).contains_key(x) || (pending.contains(x)
                && cg.split_points()[x] == cur)) by {
            if x != m {
                assert(ocg.split_points().contains_key(x));
            }
        }
        assert forall|c: ChunkUkey, x: ModuleIdentifier|
            cg.has_chunk(c) && #[trigger] cg.entry_modules(c).contains_key(x) implies
                exists|k: int, j: int|
                0 <= k < input.len() && 0 <= j < input[k].1.len() && self.group(input[k].0).entry_point_chunk
                    == Some(c) && #[trigger] input[k].1@[j] == x by {
            assert(ocg.entry_modules(c).contains_key(x));
            let (k, j) = choose|k: int, j: int|
                0 <= k < input.len() && 0 <= j < input[k].1.len() && old.group(input[k].0).entry_point_chunk
                    == Some(c) && #[trigger] input[k].1@[j] == x;
            assert(old.group(input[k].0) == self.group(input[k].0));
        }
        assert forall|k: int, j: int|
            0 <= k < input.len() && 0 <= j < input[k].1.len() implies self.is_entry_of(input[k].0, #[trigger] input[k].1@[j]) by {
            assert(old.is_entry_of(input[k].0, input[k].1@[j]));
            assert(old.group(input[k].0) == self.group(input[k].0));
        }
    }

    /// Connecting module `m` as an entry module of the current chunk `cur`, for the group `g`
    /// whose entry chunk it is, keeps what the preparation has built, with `m` one more
    /// entry module that `input` does not list yet.
    proof fn lemma_prepare_entry(
        &self,
        old: &CodeSplitter,
        m: ModuleIdentifier,
        cur: ChunkUkey,
        g: ChunkGroupUkey,
        pending: Seq<ModuleIdentifier>,
        input: Seq<(ChunkGroupUkey, Vec<ModuleIdentifier>)>,
        extra: Seq<ModuleIdentifier>,
    )
        requires
            old.prepared_but(pending, cur),
            old.input_covers_but(input, extra, cur),
            old.compilation.chunk_graph.has_chunk(cur),
            old.group(g).entry_point_chunk == Some(cur),
            self.compilation.chunk_by_ukey == old.compilation.chunk_by_ukey,
            self.compilation.chunk_group_by_ukey == old.compilation.chunk_group_by_ukey,
            self.compilation.chunk_graph.split_points() == old.compilation.chunk_graph.split_points(),
            self.compilation.chunk_graph.chunk_graph_chunk_by_chunk_ukey@.dom()
                == old.compilation.chunk_graph.chunk_graph_chunk_by_chunk_ukey@.dom(),
            forall|c: ChunkUkey| #[trigger] self.compilation.chunk_graph.chunk_modules(c)
                == old.compilation.chunk_graph.chunk_modules(c),
            forall|c: ChunkUkey| #[trigger] self.compilation.chunk_graph.entry_modules(c) == if c == cur {
                old.compilation.chunk_graph.entry_modules(c).insert(m, g)
            } else {
                old.compilation.chunk_graph.entry_modules(c)
            },
        ensures
            self.prepared_but(pending, cur),
            self.input_covers_but(input, extra.push(m), cur),
            forall|h: ChunkGroupUkey, x: ModuleIdentifier| #[trigger] old.is_entry_of(h, x) ==> self.is_entry_of(h, x),
            self.is_entry_of(g, m),
    {
        let cg = self.compilation.chunk_graph;
        let ocg = old.compilation.chunk_graph;
        assert forall|c: ChunkUkey| #[trigger] cg.has_chunk(c) implies cg.chunk_modules(c) == Set::<ModuleIdentifier>::empty() by {
            assert(ocg.has_chunk(c));
        }
        assert forall|h: ChunkGroupUkey| h < self.compilation.num_groups() implies (#[trigger] self.group(h)).module_pre_order_indices@
            == Map::<ModuleIdentifier, usize>::empty() && self.group(h).module_post_order_indices@
            == Map::<ModuleIdentifier, usize>::empty() by {
            assert(old.group(h) == self.group(h));
        }
        assert forall|x: ModuleIdentifier| #[trigger] cg.split_points().contains_key(x) implies cg.has_chunk(cg.split_points()[x]) && (
            cg.entry_modules(cg.split_points()[x]).contains_key(x) || (pending.contains(x)
                && cg.split_points()[x] == cur)) by {
            assert(ocg.split_points().contains_key(x));
            assert(ocg.has_chunk(ocg.split_points()[x]));
        }
        let extra2 = extra.push(m);
        assert forall|c: ChunkUkey, x: ModuleIdentifier|
            cg.has_chunk(c) && #[trigger] cg.entry_modules(c).contains_key(x) implies (c == cur
                && extra2.contains(x)) || exists|k: int, j: int|
                0 <= k < input.len() && 0 <= j < input[k].1.len() && self.group(input[k].0).entry_point_chunk
                    == Some(c) && #[trigger] input[k].1@[j] == x by {
            if c == cur && x == m {
                assert(extra2[extra.len() as int] == m);
            } else {
                assert(ocg.has_chunk(c));
                assert(ocg.entry_modules(c).contains_key(x));
                if c == cur && extra.contains(x) {
                    let y = choose|y: int| 0 <= y < extra.len() && extra[y] == x;
                    assert(extra2[y] == x);
                } else {
                    let (k, j) = choose|k: int, j: int|
                        0 <= k < input.len() && 0 <= j < input[k].1.len() && old.group(input[k].0).entry_point_chunk
                            == Some(c) && #[trigger] input[k].1@[j] == x;
                    assert(old.group(input[k].0) == self.group(input[k].0));
                }
            }
        }
        assert forall|h: ChunkGroupUkey, x: ModuleIdentifier| #[trigger] old.is_entry_of(h, x) implies self.is_entry_of(h, x) by {
            assert(old.group(h) == self.group(h));
            assert(ocg.has_chunk(old.entry_chunk(h)));
        }
        assert forall|k: int, j: int|
            0 <= k < input.len() && 0 <= j < input[k].1.len() implies self.is_entry_of(input[k].0, #[trigger] input[k].1@[j]) by {
            assert(old.is_entry_of(input[k].0, input[k].1@[j]));
        }
        assert(old.group(g) == self.group(g));
    }

    /// Once all pending entry modules of the current chunk are connected, nothing is pending.
    proof fn lemma_prepare_close(&self, pending: Seq<ModuleIdentifier>, cur: ChunkUkey, g: ChunkGroupUkey, modules: Seq<ModuleIdentifier>)
        requires
            self.prepared_but(pending, cur),
            self.group(g).entry_point_chunk == Some(cur),
            forall|x: int| 0 <= x < pending.len() ==> #[trigger] modules.contains(pending[x]),
            forall|y: int| 0 <= y < modules.len() ==> self.is_entry_of(g, #[trigger] modules[y]),
        ensures
            self.prepared_but(Seq::empty(), 0),
    {
        let cg = self.compilation.chunk_graph;
        assert forall|x: ModuleIdentifier| #[trigger] cg.split_points().contains_key(x) implies cg.has_chunk(cg.split_points()[x]) && (
            cg.entry_modules(cg.split_points()[x]).contains_key(x) || (Seq::<ModuleIdentifier>::empty().contains(x)
                && cg.split_points()[x] == 0)) by {
            if !cg.entry_modules(cg.split_points()[x]).contains_key(x) {
                assert(pending.contains(x) && cg.split_points()[x] == cur);
                let p = choose|p: int| 0 <= p < pending.len() && pending[p] == x;
                assert(modules.contains(pending[p]));
                let y = choose|y: int| 0 <= y < modules.len() && modules[y] == x;
                assert(self.is_entry_of(g, modules[y]));
            }
        }
    }

    /// Listing the connected entry modules of the current chunk with their group covers them.
    proof fn lemma_prepare_push_input(
        &self,
        input: Seq<(ChunkGroupUkey, Vec<ModuleIdentifier>)>,
        g: ChunkGroupUkey,
        modules: Vec<ModuleIdentifier>,
        cur: ChunkUkey,
    )
        requires
            self.input_covers_but(input, modules@, cur),
            self.group(g).entry_point_chunk == Some(cur),
            forall|y: int| 0 <= y < modules.len() ==> self.is_entry_of(g, #[trigger] modules@[y]),
        ensures
            modules.len() > 0 ==> self.input_covers_but(input.push((g, modules)), Seq::empty(), 0),
            modules.len() == 0 ==> self.input_covers_but(input, Seq::empty(), 0),
    {
        let cg = self.compilation.chunk_graph;
        let input2 = input.push((g, modules));
        if modules.len() > 0 {
            assert forall|c: ChunkUkey, x: ModuleIdentifier|
                cg.has_chunk(c) && #[trigger] cg.entry_modules(c).contains_key(x) implies (c == 0
                    && Seq::<ModuleIdentifier>::empty().contains(x)) || exists|k: int, j: int|
                    0 <= k < input2.len() && 0 <= j < input2[k].1.len() && self.group(input2[k].0).entry_point_chunk
                        == Some(c) && #[trigger] input2[k].1@[j] == x by {
                if c == cur && modules@.contains(x) {
                    let y = choose|y: int| 0 <= y < modules.len() && modules@[y] == x;
                    assert(input2[input.len() as int].1@[y] == x);
                } else {
                    let (k, j) = choose|k: int, j: int|
                        0 <= k < input.len() && 0 <= j < input[k].1.len() && self.group(input[k].0).entry_point_chunk
                            == Some(c) && #[trigger] input[k].1@[j] == x;
                    assert(input2[k] == input[k]);
                }
            }
            assert forall|k: int, j: int|
                0 <= k < input2.len() && 0 <= j < input2[k].1.len() implies self.is_entry_of(input2[k].0, #[trigger] input2[k].1@[j]) by {
                if k < input.len() {
                    assert(input2[k] == input[k]);
                } else {
                    assert(self.is_entry_of(g, modules@[j]));
                }
            }
        }
    }

    /// A queue item that adds an entry module to the entry chunk of its entrypoint.
    pub open spec fn is_entry_item(&self, item: QueueItem) -> bool {
        &&& item.action == QueueAction::AddAndEnter
        &&& self.is_entry_of(item.chunk_group, item.module_identifier)
        &&& item.chunk == self.entry_chunk(item.chunk_group)
    }

    /// The queue holds, for every module that `input` lists, an item that adds it to the
    /// entry chunk of its entrypoint.
    pub open spec fn queue_covers(&self, items: Seq<QueueItem>, input: Seq<(ChunkGroupUkey, Vec<ModuleIdentifier>)>, upto: int, last: int) -> bool {
        forall|k: int, j: int|
            0 <= k < input.len() && 0 <= j < input[k].1.len() && (k < upto || (k == upto && j < last))
                ==> #[trigger] Self::has_adding(items, self.entry_chunk(input[k].0), input[k].1@[j])
    }

    /// Some item of `items` adds module `m` to chunk `c`.
    pub open spec fn has_adding(items: Seq<QueueItem>, c: ChunkUkey, m: ModuleIdentifier) -> bool {
        exists|i: int| 0 <= i < items.len() && Self::adds(#[trigger] items[i], c, m)
    }

    /// Right after the queue was filled from a fresh preparation, the law holds.
    proof fn lemma_start_law(&self, base: &CodeSplitter, input: Seq<(ChunkGroupUkey, Vec<ModuleIdentifier>)>)
        requires
            self.inv(),
            self.compilation == base.compilation,
            base.prepared_but(Seq::empty(), 0),
            base.input_covers_but(input, Seq::empty(), 0),
            self.queue_delayed@.len() == 0,
            self.split_point_modules@ == Set::<ModuleIdentifier>::empty(),
            self.edges() == Set::<(usize, usize)>::empty(),
            forall|m: int|
                0 <= m < self.num_modules() ==> (#[trigger] self.compilation.module_graph.modules@[m]).pre_order_index is None
                    && self.compilation.module_graph.modules@[m].post_order_index is None,
            forall|i: int| 0 <= i < self.queue.len() ==> base.is_entry_item(#[trigger] self.queue@[i]),
            base.queue_covers(self.queue@, input, input.len() as int, 0),
        ensures
            self.law(None),
    {
        let cg = self.compilation.chunk_graph;
        let n = self.num_modules();
        assert forall|c: ChunkUkey, m: ModuleIdentifier| #[trigger] self.chunk_has(c, m) implies false by {
            assert(cg.has_chunk(c));
        }
        assert forall|i: int| 0 <= i < self.queue.len() && (#[trigger] self.queue@[i]).action
            == QueueAction::AddAndEnter implies reachable(self.graph(), cg, self.queue@[i].chunk, self.queue@[i].module_identifier) by {
            let it = self.queue@[i];
            assert(base.is_entry_item(it));
            assert(cg.has_module(it.module_identifier));
            assert(self.graph().len() == n);
            lemma_reachable_root(self.graph(), cg, it.chunk, it.module_identifier);
        }
        assert(self.law_sound(None));
        assert forall|c: ChunkUkey, r: ModuleIdentifier|
            c < self.num_chunks() && #[trigger] is_root(cg, c, r) implies self.chunk_has(c, r) || self.pending_add(c, r, None) by {
            if !(cg.has_chunk(c) && cg.entry_modules(c).contains_key(r)) {
                assert(cg.split_points().contains_key(r) && cg.split_points()[r] == c);
            }
            assert(cg.has_chunk(c) && cg.entry_modules(c).contains_key(r));
            assert(base.entries_listed(input, Seq::empty(), 0));
            let (k, j) = choose|k: int, j: int|
                0 <= k < input.len() && 0 <= j < input[k].1.len() && base.group(input[k].0).entry_point_chunk
                    == Some(c) && #[trigger] input[k].1@[j] == r;
            assert(Self::has_adding(self.queue@, base.entry_chunk(input[k].0), input[k].1@[j]));
            let i = choose|i: int| 0 <= i < self.queue@.len() && Self::adds(#[trigger] self.queue@[i], c, r);
            assert(Self::adds(self.queue@[i], c, r));
        }
        assert(self.law_roots(None));
        assert(self.law_split_points()) by {
            reveal(CodeSplitter::law_split_points);
        }
        assert(self.law_split_entries()) by {
            reveal(CodeSplitter::law_split_entries);
        }
        assert(self.law_relations()) by {
            reveal(CodeSplitter::law_relations);
        }
        assert(self.law_module_orders());
        assert forall|h: ChunkGroupUkey| h < self.compilation.num_groups() implies (#[trigger] self.group(h)).module_pre_order_indices@
            == Map::<ModuleIdentifier, usize>::empty() && self.group(h).module_post_order_indices@
            == Map::<ModuleIdentifier, usize>::empty() by {
            assert(base.group(h) == self.group(h));
        }
        assert(self.law_group_orders(None));
        assert(self.law_runtimes());
    }

    /// Moving the delayed items into the empty queue keeps the law.
    proof fn lemma_swap_law(&self, old: &CodeSplitter)
        requires
            old.law(None),
            old.queue@.len() == 0,
            self.queue@ == old.queue_delayed@,
            self.queue_delayed@.len() == 0,
            self.compilation == old.compilation,
            self.split_point_modules == old.split_point_modules,
            self.chunk_relation_graph == old.chunk_relation_graph,
            self.next_free_module_pre_order_index == old.next_free_module_pre_order_index,
            self.next_free_module_post_order_index == old.next_free_module_post_order_index,
        ensures
            self.law(None),
    {
        assert forall|c: ChunkUkey, m: ModuleIdentifier| #[trigger] old.pending_add(c, m, None) implies
            self.pending_add(c, m, None) by {
            let i = choose|i: int| 0 <= i < old.queue_delayed.len() && Self::adds(#[trigger] old.queue_delayed@[i], c, m);
            assert(Self::adds(self.queue@[i], c, m));
        }
        assert forall|g: ChunkGroupUkey, m: ModuleIdentifier| #[trigger] old.pending_leave(g, m, None) implies
            self.pending_leave(g, m, None) by {
        }
        let cg = self.compilation.chunk_graph;
        assert(self.law_sound(None)) by {
            assert forall|c: ChunkUkey, y: ModuleIdentifier| #[trigger] self.chunk_has(c, y) implies
                reachable(self.graph(), cg, c, y) by {
                assert(old.chunk_has(c, y));
            }
            assert forall|i: int| 0 <= i < self.queue.len() && (#[trigger] self.queue@[i]).action == QueueAction::AddAndEnter implies
                reachable(self.graph(), cg, self.queue@[i].chunk, self.queue@[i].module_identifier) by {
                assert(old.queue_delayed@[i] == self.queue@[i]);
            }
        }
        assert(self.law_roots(None)) by {
            assert forall|c: ChunkUkey, r: ModuleIdentifier|
                c < self.num_chunks() && #[trigger] is_root(cg, c, r)
                implies self.chunk_has(c, r) || self.pending_add(c, r, None) by {
                if !old.chunk_has(c, r) {
                    assert(old.pending_add(c, r, None));
                }
            }
        }
        assert(self.splits_frame(old));
        self.lemma_splits_frame(old);
        self.lemma_module_orders_frame(old);
        assert(self.law_group_orders(None)) by {
            assert forall|h: ChunkGroupUkey, y: ModuleIdentifier|
                h < self.compilation.num_groups() && #[trigger] self.group(h).module_pre_order_indices@.contains_key(y) implies {
                    &&& self.group(h).module_pre_order_indices@[y] < self.group(h).next_pre_order_index
                    &&& (self.group(h).module_post_order_indices@.contains_key(y) || self.pending_leave(h, y, None))
                } by {
                assert(old.group(h).module_pre_order_indices@.contains_key(y));
                if !old.group(h).module_post_order_indices@.contains_key(y) {
                    assert(old.pending_leave(h, y, None));
                }
            }
            assert forall|h: ChunkGroupUkey, m1: ModuleIdentifier, m2: ModuleIdentifier|
                h < self.compilation.num_groups() && m1 != m2
                    && #[trigger] self.group(h).module_pre_order_indices@.contains_key(m1)
                    && #[trigger] self.group(h).module_pre_order_indices@.contains_key(m2)
                implies self.group(h).module_pre_order_indices@[m1] != self.group(h).module_pre_order_indices@[m2] by {
                assert(old.group(h).module_pre_order_indices@.contains_key(m1));
                assert(old.group(h).module_pre_order_indices@.contains_key(m2));
            }
            assert forall|h: ChunkGroupUkey, y: ModuleIdentifier|
                h < self.compilation.num_groups() && #[trigger] self.group(h).module_post_order_indices@.contains_key(y) implies {
                    &&& self.group(h).module_post_order_indices@[y] < self.group(h).next_post_order_index
                    &&& self.group(h).module_pre_order_indices@.contains_key(y)
                } by {
                assert(old.group(h).module_post_order_indices@.contains_key(y));
            }
            assert forall|h: ChunkGroupUkey, m1: ModuleIdentifier, m2: ModuleIdentifier|
                h < self.compilation.num_groups() && m1 != m2
                    && #[trigger] self.group(h).module_post_order_indices@.contains_key(m1)
                    && #[trigger] self.group(h).module_post_order_indices@.contains_key(m2)
                implies self.group(h).module_post_order_indices@[m1] != self.group(h).module_post_order_indices@[m2] by {
                assert(old.group(h).module_post_order_indices@.contains_key(m1));
                assert(old.group(h).module_post_order_indices@.contains_key(m2));
            }
        }
        assert forall|c: ChunkUkey, m: ModuleIdentifier| #[trigger]
            self.chunk_has(c, m) implies self.member_deps(c, m, None) && self.member_entered(m, None) by {
            assert(old.chunk_has(c, m));
            assert(old.member_deps(c, m, None));
            assert(old.member_entered(m, None));
            assert forall|j: int| 0 <= j < self.module_deps(m).len() implies self.chunk_has(c, #[trigger] self.module_deps(m)[j])
                || self.pending_add(c, self.module_deps(m)[j], None) by {
                let dep = old.module_deps(m)[j];
                if !old.chunk_has(c, dep) {
                    assert(old.pending_add(c, dep, None));
                }
            }
            assert forall|j: int| 0 <= j < self.module_dyn_deps(m).len() implies self.split_point_modules@.contains(
                #[trigger] self.module_dyn_deps(m)[j]) by {
                assert(old.split_point_modules@.contains(old.module_dyn_deps(m)[j]));
            }
        }
    }

    /// With both queues empty, the law says that each chunk holds exactly what its roots
    /// reach.
    proof fn lemma_closed(&self)
        requires
            self.inv(),
            self.law(None),
            self.queue@.len() == 0,
            self.queue_delayed@.len() == 0,
        ensures
            forall|c: ChunkUkey, m: ModuleIdentifier| c < self.num_chunks() ==> (#[trigger] self.chunk_has(c, m)
                <==> reachable(self.graph(), self.compilation.chunk_graph, c, m)),
    {
        let cg = self.compilation.chunk_graph;
        let graph = self.graph();
        assert forall|c: ChunkUkey, m: ModuleIdentifier| c < self.num_chunks() && #[trigger] reachable(graph, cg, c, m)
            implies self.chunk_has(c, m) by {
            let members = Set::new(|x: ModuleIdentifier| self.chunk_has(c, x));
            assert forall|r: ModuleIdentifier| is_root(cg, c, r) implies #[trigger] members.contains(r) by {
                assert(self.chunk_has(c, r) || self.pending_add(c, r, None));
            }
            assert forall|x: ModuleIdentifier, y: ModuleIdentifier|
                #[trigger] members.contains(x) && x < graph.len() && #[trigger] graph[x as int].contains(y)
                implies members.contains(y) by {
                assert(self.chunk_has(c, x));
                assert(self.member_deps(c, x, None));
                let j = choose|j: int| 0 <= j < graph[x as int].len() && graph[x as int][j] == y;
                assert(graph[x as int] == self.module_deps(x));
                assert(self.chunk_has(c, self.module_deps(x)[j]) || self.pending_add(c, self.module_deps(x)[j], None));
            }
            lemma_reachable_within(graph, cg, c, members, m);
        }
    }


    /// `self` is what taking out the duplicates of `s1`, giving `s2`, and then giving the
    /// entry chunks their runtimes, left.
    pub open spec fn finish_step(&self, s1: &CodeSplitter, s2: &CodeSplitter) -> bool {
        &&& s2.split_point_modules == s1.split_point_modules
        &&& s2.chunk_relation_graph == s1.chunk_relation_graph
        &&& s2.compilation.chunk_by_ukey == s1.compilation.chunk_by_ukey
        &&& s2.compilation.chunk_group_by_ukey == s1.compilation.chunk_group_by_ukey
        &&& s2.compilation.module_graph == s1.compilation.module_graph
        &&& s2.compilation.chunk_graph.split_points() == s1.compilation.chunk_graph.split_points()
        &&& forall|c: ChunkUkey| #[trigger] s2.compilation.chunk_graph.has_chunk(c) == s1.compilation.chunk_graph.has_chunk(c)
        &&& forall|c: ChunkUkey| #[trigger] s2.compilation.chunk_graph.entry_modules(c) == s1.compilation.chunk_graph.entry_modules(c)
        &&& forall|c: ChunkUkey, m: ModuleIdentifier|
            c < s1.num_chunks() ==> (#[trigger] s2.compilation.chunk_graph.chunk_modules(c).contains(m) <==> {
                &&& s1.compilation.chunk_graph.chunk_modules(c).contains(m)
                &&& !Self::has_superior(s1.compilation.chunk_graph, s1.edges(), s1.num_chunks(), c, m)
            })
        &&& self.split_point_modules == s2.split_point_modules
        &&& self.chunk_relation_graph == s2.chunk_relation_graph
        &&& self.compilation.chunk_graph == s2.compilation.chunk_graph
        &&& self.compilation.chunk_group_by_ukey == s2.compilation.chunk_group_by_ukey
        &&& self.compilation.module_graph == s2.compilation.module_graph
        &&& self.num_chunks() == s2.num_chunks()
        &&& forall|c: int|
            0 <= c < s2.num_chunks() ==> (#[trigger] self.compilation.chunk_by_ukey@[c]).name == s2.compilation.chunk_by_ukey@[c].name
                && self.compilation.chunk_by_ukey@[c].id == s2.compilation.chunk_by_ukey@[c].id
        &&& forall|c: int|
            0 <= c < s2.num_chunks() ==> (#[trigger] self.compilation.chunk_by_ukey@[c]).runtime_names()
                == s2.compilation.chunk_by_ukey@[c].runtime_names() + Self::entry_runtimes(&s2.compilation, c as usize)
    }

    /// The modules a chunk reaches in the end are the members it had before the duplicates
    /// were taken out.
    proof fn lemma_reaches_members(&self, s1: &CodeSplitter, s2: &CodeSplitter)
        requires
            self.finish_step(s1, s2),
            s1.inv(),
            s1.law(None),
            s1.queue@.len() == 0,
            s1.queue_delayed@.len() == 0,
        ensures
            forall|c: ChunkUkey, m: ModuleIdentifier| c < self.num_chunks() ==> (reaches(&self.compilation, c, m) <==> #[trigger] s1.chunk_has(c, m)),
    {
        let comp = self.compilation;
        let cg = comp.chunk_graph;
        let cg1 = s1.compilation.chunk_graph;
        let graph = s1.graph();
        assert(dep_graph(&comp.module_graph) == graph);
        assert forall|c: ChunkUkey, r: ModuleIdentifier| #[trigger] is_root(cg1, c, r) implies is_root(cg, c, r) by {
            if cg1.has_chunk(c) && cg1.entry_modules(c).contains_key(r) {
                assert(cg.has_chunk(c));
            }
        }
        assert forall|c: ChunkUkey, r: ModuleIdentifier| #[trigger] is_root(cg, c, r) implies is_root(cg1, c, r) by {
            if cg.has_chunk(c) && cg.entry_modules(c).contains_key(r) {
                assert(cg1.has_chunk(c));
            }
        }
        lemma_reachable_mono(graph, cg1, cg);
        lemma_reachable_mono(graph, cg, cg1);
        s1.lemma_closed();
        assert forall|c: ChunkUkey, m: ModuleIdentifier| c < self.num_chunks() implies (reaches(&comp, c, m) <==> #[trigger] s1.chunk_has(c, m)) by {
            if reaches(&comp, c, m) {
                assert(reachable(graph, cg1, c, m));
            }
            if s1.chunk_has(c, m) {
                assert(reachable(graph, cg1, c, m));
            }
        }
    }

    /// In the end a chunk holds what it reaches and no chunk it relates to reaches.
    proof fn lemma_outcome_contents(&self, s1: &CodeSplitter, s2: &CodeSplitter)
        requires
            self.finish_step(s1, s2),
            s1.inv(),
            forall|c: ChunkUkey, m: ModuleIdentifier| c < self.num_chunks() ==> (reaches(&self.compilation, c, m) <==> #[trigger] s1.chunk_has(c, m)),
        ensures
            forall|c: ChunkUkey, m: ModuleIdentifier|
                c < self.num_chunks() ==> (#[trigger] self.compilation.chunk_graph.chunk_modules(c).contains(m) <==> reaches(&self.compilation, c, m) && !exists|o: ChunkUkey|
                    o < self.num_chunks() && #[trigger] self.edges().contains((c, o)) && reaches(&self.compilation, o, m)),
    {
        let comp = self.compilation;
        let cg = comp.chunk_graph;
        let cg1 = s1.compilation.chunk_graph;
        let n = self.num_chunks();
        let edges = self.edges();
        assert forall|c: ChunkUkey, m: ModuleIdentifier|
            c < n implies (#[trigger] cg.chunk_modules(c).contains(m) <==> reaches(&comp, c, m) && !exists|o: ChunkUkey|
                o < n && #[trigger] edges.contains((c, o)) && reaches(&comp, o, m)) by {
            assert(cg1.has_chunk(c));
            if cg.chunk_modules(c).contains(m) {
                assert(cg1.chunk_modules(c).contains(m));
                assert(cg1.has_module(m));
                assert(s1.chunk_has(c, m));
                if exists|o: ChunkUkey| o < n && #[trigger] edges.contains((c, o)) && reaches(&comp, o, m) {
                    let o = choose|o: ChunkUkey| o < n && #[trigger] edges.contains((c, o)) && reaches(&comp, o, m);
                    assert(s1.chunk_has(o, m));
                    assert(cg1.module_chunks(m).contains(o));
                    assert(Self::has_superior(cg1, s1.edges(), s1.num_chunks(), c, m));
                }
            } else if reaches(&comp, c, m) {
                assert(s1.chunk_has(c, m));
                assert(Self::has_superior(cg1, s1.edges(), s1.num_chunks(), c, m));
                let o = choose|o: ChunkUkey|
                    o < s1.num_chunks() && cg1.module_chunks(m).contains(o) && #[trigger] s1.edges().contains((c, o));
                assert(cg1.has_chunk(o) && cg1.chunk_modules(o).contains(m));
                assert(s1.chunk_has(o, m));
                assert(reaches(&comp, o, m));
            }
        }
    }

    /// In the end every dynamic import of a reached module is a split point.
    proof fn lemma_outcome_dyn(&self, s1: &CodeSplitter, s2: &CodeSplitter)
        requires
            self.finish_step(s1, s2),
            s1.law(None),
            forall|c: ChunkUkey, m: ModuleIdentifier| c < self.num_chunks() ==> (reaches(&self.compilation, c, m) <==> #[trigger] s1.chunk_has(c, m)),
        ensures
            forall|c: ChunkUkey, x: ModuleIdentifier, d: ModuleIdentifier|
                c < self.num_chunks() && #[trigger] reaches(&self.compilation, c, x)
                    && #[trigger] self.compilation.module_graph.modules@[x as int].dynamic_dependencies@.contains(d)
                    ==> self.split_point_modules@.contains(d),
    {
        let comp = self.compilation;
        assert forall|c: ChunkUkey, x: ModuleIdentifier, d: ModuleIdentifier|
            c < self.num_chunks() && #[trigger] reaches(&comp, c, x) && #[trigger] comp.module_graph.modules@[x as int].dynamic_dependencies@.contains(d)
            implies self.split_point_modules@.contains(d) by {
            assert(s1.chunk_has(c, x));
            assert(s1.member_deps(c, x, None));
            let j = choose|j: int| 0 <= j < s1.module_dyn_deps(x).len() && s1.module_dyn_deps(x)[j] == d;
            assert(s1.split_point_modules@.contains(s1.module_dyn_deps(x)[j]));
        }
    }

    /// In the end every split point has its chunk, related to a chunk that reaches a module
    /// importing it.
    proof fn lemma_outcome_points(&self, s1: &CodeSplitter, s2: &CodeSplitter)
        requires
            self.finish_step(s1, s2),
            s1.law(None),
            forall|c: ChunkUkey, m: ModuleIdentifier| c < self.num_chunks() ==> (reaches(&self.compilation, c, m) <==> #[trigger] s1.chunk_has(c, m)),
        ensures
            ({
                let comp = self.compilation;
                let sp = comp.chunk_graph.split_points();
                let edges = self.edges();
                forall|d: ModuleIdentifier| #[trigger]
                    self.split_point_modules@.contains(d) ==> {
                        &&& sp.contains_key(d)
                        &&& sp[d] < self.num_chunks()
                        &&& exists|b: ChunkUkey, y: ModuleIdentifier|
                            #![trigger edges.contains((sp[d], b)), reaches(&comp, b, y)]
                            edges.contains((sp[d], b)) && b < self.num_chunks() && reaches(&comp, b, y)
                                && comp.module_graph.modules@[y as int].dynamic_dependencies@.contains(d)
                    }
            }),
            ({
                let cg = self.compilation.chunk_graph;
                let sp = cg.split_points();
                forall|m: ModuleIdentifier| #[trigger]
                    sp.contains_key(m) && !self.split_point_modules@.contains(m) ==> cg.has_chunk(sp[m])
                        && cg.entry_modules(sp[m]).contains_key(m)
            }),
    {
        let comp = self.compilation;
        let sp = comp.chunk_graph.split_points();
        let edges = self.edges();
        assert(s1.law_split_points());
        reveal(CodeSplitter::law_split_points);
        assert(s1.law_split_entries());
        reveal(CodeSplitter::law_split_entries);
        let cg = comp.chunk_graph;
        let cg1 = s1.compilation.chunk_graph;
        assert forall|m: ModuleIdentifier| #[trigger]
            sp.contains_key(m) && !self.split_point_modules@.contains(m) implies cg.has_chunk(sp[m])
                && cg.entry_modules(sp[m]).contains_key(m) by {
            assert(cg1.split_points().contains_key(m));
            assert(cg1.has_chunk(cg1.split_points()[m]));
        }
        assert forall|d: ModuleIdentifier| #[trigger] self.split_point_modules@.contains(d) implies {
            &&& sp.contains_key(d)
            &&& sp[d] < self.num_chunks()
            &&& exists|b: ChunkUkey, y: ModuleIdentifier|
                #![trigger edges.contains((sp[d], b)), reaches(&comp, b, y)]
                edges.contains((sp[d], b)) && b < self.num_chunks() && reaches(&comp, b, y)
                    && comp.module_graph.modules@[y as int].dynamic_dependencies@.contains(d)
        } by {
            assert(s1.split_point_modules@.contains(d));
            let (b, y) = choose|b: ChunkUkey, y: ModuleIdentifier|
                #![trigger s1.edges().contains((sp[d], b)), s1.chunk_has(b, y)]
                s1.edges().contains((sp[d], b)) && s1.chunk_has(b, y)
                    && s1.module_dyn_deps(y).contains(d);
            assert(reaches(&comp, b, y));
        }
    }

    /// In the end every relation comes from a split point imported by a module that the
    /// related chunk reaches.
    proof fn lemma_outcome_relations(&self, s1: &CodeSplitter, s2: &CodeSplitter)
        requires
            self.finish_step(s1, s2),
            s1.law(None),
            forall|c: ChunkUkey, m: ModuleIdentifier| c < self.num_chunks() ==> (reaches(&self.compilation, c, m) <==> #[trigger] s1.chunk_has(c, m)),
        ensures
            ({
                let comp = self.compilation;
                let sp = comp.chunk_graph.split_points();
                let edges = self.edges();
                forall|a: ChunkUkey, b: ChunkUkey| #[trigger]
                    edges.contains((a, b)) ==> {
                        &&& b < self.num_chunks()
                        &&& exists|d: ModuleIdentifier, x: ModuleIdentifier|
                            #![trigger self.split_point_modules@.contains(d), reaches(&comp, b, x)]
                            self.split_point_modules@.contains(d) && sp[d] == a && reaches(&comp, b, x)
                                && comp.module_graph.modules@[x as int].dynamic_dependencies@.contains(d)
                    }
            }),
    {
        let comp = self.compilation;
        let cg1 = s1.compilation.chunk_graph;
        let sp = comp.chunk_graph.split_points();
        let edges = self.edges();
        assert(s1.law_relations());
        reveal(CodeSplitter::law_relations);
        assert forall|a: ChunkUkey, b: ChunkUkey| #[trigger] edges.contains((a, b)) implies {
            &&& b < self.num_chunks()
            &&& exists|d: ModuleIdentifier, x: ModuleIdentifier|
                #![trigger self.split_point_modules@.contains(d), reaches(&comp, b, x)]
                self.split_point_modules@.contains(d) && sp[d] == a && reaches(&comp, b, x)
                    && comp.module_graph.modules@[x as int].dynamic_dependencies@.contains(d)
        } by {
            assert(s1.edges().contains((a, b)));
            let (d, x) = choose|d: ModuleIdentifier, x: ModuleIdentifier|
                #![trigger s1.split_point_modules@.contains(d), s1.chunk_has(b, x)]
                s1.split_point_modules@.contains(d) && cg1.split_points()[d] == a && s1.chunk_has(b, x)
                    && s1.module_dyn_deps(x).contains(d);
            assert(reaches(&comp, b, x));
        }
    }

    /// In the end every reached module has its order indices, and the chunks their runtimes.
    proof fn lemma_outcome_orders(&self, s1: &CodeSplitter, s2: &CodeSplitter)
        requires
            self.finish_step(s1, s2),
            s1.law(None),
            s1.queue@.len() == 0,
            forall|c: ChunkUkey, m: ModuleIdentifier| c < self.num_chunks() ==> (reaches(&self.compilation, c, m) <==> #[trigger] s1.chunk_has(c, m)),
        ensures
            ({
                let comp = self.compilation;
                let n = self.num_chunks();
                let modules = comp.module_graph.modules@;
                &&& forall|c: ChunkUkey, m: ModuleIdentifier|
                    c < n && #[trigger] reaches(&comp, c, m) ==> modules[m as int].pre_order_index is Some
                        && modules[m as int].post_order_index is Some
                &&& forall|m1: ModuleIdentifier, m2: ModuleIdentifier|
                    m1 < modules.len() && m2 < modules.len() && m1 != m2
                        && (#[trigger] modules[m1 as int]).pre_order_index is Some && (#[trigger] modules[m2 as int]).pre_order_index is Some
                        ==> modules[m1 as int].pre_order_index != modules[m2 as int].pre_order_index
                &&& forall|m1: ModuleIdentifier, m2: ModuleIdentifier|
                    m1 < modules.len() && m2 < modules.len() && m1 != m2
                        && (#[trigger] modules[m1 as int]).post_order_index is Some && (#[trigger] modules[m2 as int]).post_order_index is Some
                        ==> modules[m1 as int].post_order_index != modules[m2 as int].post_order_index
                &&& forall|c: int|
                    0 <= c < n ==> (#[trigger] comp.chunk_by_ukey@[c]).runtime_names() == Self::entry_runtimes(
                        &comp,
                        c as usize,
                    )
            }),
    {
        let comp = self.compilation;
        let n = self.num_chunks();
        assert forall|c: ChunkUkey, m: ModuleIdentifier|
            c < n && #[trigger] reaches(&comp, c, m) implies comp.module_graph.modules@[m as int].pre_order_index is Some
                && comp.module_graph.modules@[m as int].post_order_index is Some by {
            assert(s1.chunk_has(c, m));
            assert(s1.member_entered(m, None));
            if s1.module_post(m) is None {
                let h = choose|h: ChunkGroupUkey| #[trigger] s1.pending_leave(h, m, None);
            }
        }
        assert(s1.law_module_orders());
        assert forall|m1: ModuleIdentifier, m2: ModuleIdentifier|
            m1 < comp.module_graph.modules@.len() && m2 < comp.module_graph.modules@.len() && m1 != m2
                && (#[trigger] comp.module_graph.modules@[m1 as int]).pre_order_index is Some && (#[trigger] comp.module_graph.modules@[m2 as int]).pre_order_index is Some
            implies comp.module_graph.modules@[m1 as int].pre_order_index != comp.module_graph.modules@[m2 as int].pre_order_index by {
            assert(s1.module_pre(m1) is Some && s1.module_pre(m2) is Some);
        }
        assert forall|m1: ModuleIdentifier, m2: ModuleIdentifier|
            m1 < comp.module_graph.modules@.len() && m2 < comp.module_graph.modules@.len() && m1 != m2
                && (#[trigger] comp.module_graph.modules@[m1 as int]).post_order_index is Some && (#[trigger] comp.module_graph.modules@[m2 as int]).post_order_index is Some
            implies comp.module_graph.modules@[m1 as int].post_order_index != comp.module_graph.modules@[m2 as int].post_order_index by {
            assert(s1.module_post(m1) is Some && s1.module_post(m2) is Some);
        }
        assert forall|c: int| 0 <= c < n implies (#[trigger] comp.chunk_by_ukey@[c]).runtime_names() == Self::entry_runtimes(&comp, c as usize) by {
            assert(s1.compilation.chunk_by_ukey@[c].runtime@.len() == 0);
            assert(s2.compilation.chunk_by_ukey@[c].runtime_names() =~= Set::<Seq<char>>::empty());
            assert(Self::entry_runtimes(&s2.compilation, c as usize) =~= Self::entry_runtimes(&comp, c as usize));
        }
    }

    /// After the queues ran dry under the law, taking out the modules that related chunks
    /// hold and giving the entry chunks their runtimes leaves the outcome of splitting.
    proof fn lemma_outcome(&self, s1: &CodeSplitter, s2: &CodeSplitter)
        requires
            self.finish_step(s1, s2),
            s1.inv(),
            s1.law(None),
            s1.queue@.len() == 0,
            s1.queue_delayed@.len() == 0,
        ensures
            split_outcome_core(&self.compilation, self.edges(), self.split_point_modules@),
    {
        self.lemma_reaches_members(s1, s2);
        self.lemma_outcome_contents(s1, s2);
        self.lemma_outcome_dyn(s1, s2);
        self.lemma_outcome_points(s1, s2);
        self.lemma_outcome_relations(s1, s2);
        self.lemma_outcome_orders(s1, s2);
    }

    /// In the end the links of the run are those of the outcome.
    /// The split-point facts of the end of the run, over the final compilation.
    proof fn lemma_points_named(&self, s1: &CodeSplitter)
        requires
            s1.inv(),
            s1.law_links(),
            s1.law_names(),
            self.compilation.named_chunks == s1.compilation.named_chunks,
            self.compilation.entries == s1.compilation.entries,
            self.compilation.module_graph == s1.compilation.module_graph,
            self.compilation.chunk_graph.split_points() == s1.compilation.chunk_graph.split_points(),
            self.split_point_modules == s1.split_point_modules,
            self.split_from == s1.split_from,
            self.num_chunks() == s1.num_chunks(),
        ensures
            points_named(&self.compilation, self.split_point_modules@, self.split_from@),
    {
        let comp = &self.compilation;
        let c1 = &s1.compilation;
        assert(entry_names(comp) =~= entry_names(c1));
        assert forall|d: ModuleIdentifier| #[trigger] dyn_imported(comp, d) == dyn_imported(c1, d) by {}
        if dyn_names_fresh(comp) {
            assert forall|d1: ModuleIdentifier, d2: ModuleIdentifier|
                #[trigger] dyn_imported(c1, d1) && #[trigger] dyn_imported(c1, d2) && d1 != d2 implies name_of(c1, d1) != name_of(c1, d2) by {
                assert(dyn_imported(comp, d1) && dyn_imported(comp, d2));
            }
            assert forall|x: ModuleIdentifier| #[trigger] dyn_imported(c1, x) implies !entry_names(c1).contains(name_of(c1, x)) by {
                assert(dyn_imported(comp, x));
            }
            assert(dyn_names_fresh(c1));
        }
        assert forall|d: ModuleIdentifier| #[trigger] self.split_point_modules@.contains(d) implies {
            &&& self.split_from@.contains_key(d)
            &&& self.split_from@[d] < comp.num_chunks()
            &&& comp.chunk_graph.split_points()[d] < comp.num_chunks()
            &&& dyn_imported(comp, d)
            &&& comp.named_chunks@.contains_key(name_of(comp, d))
            &&& comp.chunk_graph.split_points()[d] == comp.named_chunks@[name_of(comp, d)]
            &&& (dyn_names_fresh(comp) ==> self.split_from@[d] < comp.chunk_graph.split_points()[d])
        } by {
            assert(s1.split_point_modules@.contains(d));
            let x = choose|x: ModuleIdentifier| s1.chunk_has(s1.split_from@[d], x) && #[trigger] s1.module_dyn_deps(x).contains(d);
            assert(s1.chunk_has(s1.split_from@[d], x));
            assert(c1.chunk_graph.split_points().contains_key(d));
        }
        assert forall|n: Seq<char>| #[trigger] comp.named_chunks@.contains_key(n) implies comp.named_chunks@[n] < comp.num_chunks() by {
            assert(c1.named_chunks@.contains_key(n));
        }
        assert forall|k: ChunkUkey| k < comp.num_chunks() implies #[trigger] has_chunk_name(comp, k) by {
            assert(s1.chunk_named(k));
        }

        assert forall|n: Seq<char>| #[trigger] comp.named_chunks@.contains_key(n) implies entry_names(comp).contains(n)
            || exists|d: ModuleIdentifier| #[trigger] self.split_point_modules@.contains(d) && name_of(comp, d) == n by {
            assert(c1.named_chunks@.contains_key(n));
            if !entry_names(c1).contains(n) {
                let d = choose|d: ModuleIdentifier| #[trigger] s1.split_point_modules@.contains(d) && name_of(c1, d) == n;
                assert(name_of(comp, d) == name_of(c1, d));
            }
        }
    }

    /// In the end exactly the reached modules have order indices.
    proof fn lemma_outcome_indexed(&self, s1: &CodeSplitter, s2: &CodeSplitter)
        requires
            self.finish_step(s1, s2),
            s1.inv(),
            s1.law(None),
            s1.law_indexed(),
            s1.queue@.len() == 0,
            s1.queue_delayed@.len() == 0,
        ensures
            forall|m: ModuleIdentifier|
                m < self.compilation.num_modules() ==> ((#[trigger] self.compilation.module_graph.modules@[m as int]).pre_order_index is Some
                    <==> exists|c: ChunkUkey| c < self.compilation.num_chunks() && #[trigger] reaches(&self.compilation, c, m)),
            forall|m: ModuleIdentifier|
                m < self.compilation.num_modules() ==> ((#[trigger] self.compilation.module_graph.modules@[m as int]).post_order_index is Some
                    <==> self.compilation.module_graph.modules@[m as int].pre_order_index is Some),
    {
        self.lemma_reaches_members(s1, s2);
        let comp = self.compilation;
        assert forall|m: ModuleIdentifier| m < comp.num_modules() implies ((#[trigger] comp.module_graph.modules@[m as int]).pre_order_index is Some
            <==> exists|c: ChunkUkey| c < comp.num_chunks() && #[trigger] reaches(&comp, c, m)) by {
            if comp.module_graph.modules@[m as int].pre_order_index is Some {
                assert(s1.module_pre(m) is Some);
                let c = choose|c: ChunkUkey| #[trigger] s1.chunk_has(c, m);
                assert(reaches(&comp, c, m));
            }
            if exists|c: ChunkUkey| c < comp.num_chunks() && #[trigger] reaches(&comp, c, m) {
                let c = choose|c: ChunkUkey| c < comp.num_chunks() && #[trigger] reaches(&comp, c, m);
                assert(s1.chunk_has(c, m));
                assert(s1.member_entered(m, None));
            }
        }
        assert forall|m: ModuleIdentifier| m < comp.num_modules() implies ((#[trigger] comp.module_graph.modules@[m as int]).post_order_index is Some
            <==> comp.module_graph.modules@[m as int].pre_order_index is Some) by {
            if comp.module_graph.modules@[m as int].post_order_index is Some {
                assert(s1.module_post(m) is Some);
            }
            if comp.module_graph.modules@[m as int].pre_order_index is Some {
                assert(s1.module_pre(m) is Some);
                let c = choose|c: ChunkUkey| #[trigger] s1.chunk_has(c, m);
                assert(s1.member_entered(m, None));
                if s1.module_post(m) is None {
                    let g = choose|g: ChunkGroupUkey| #[trigger] s1.pending_leave(g, m, None);
                    assert(false);
                }
            }
        }
    }

    #[verifier::spinoff_prover]
    #[verifier::rlimit(30)]
    proof fn lemma_outcome_links(&self, s1: &CodeSplitter, s2: &CodeSplitter)
        requires
            self.finish_step(s1, s2),
            s1.inv(),
            s1.law(None),
            s1.law_links(),
            s1.law_counts(),
            s1.law_names(),
            s1.law_indexed(),
            s1.law_chunk_ids(),
            s1.queue@.len() == 0,
            s1.queue_delayed@.len() == 0,
            self.split_from == s1.split_from,
            self.compilation.named_chunks == s1.compilation.named_chunks,
            self.compilation.entries == s1.compilation.entries,
        ensures
            split_outcome(&self.compilation, self.edges(), self.split_point_modules@, self.split_from@),
    {
        self.lemma_outcome(s1, s2);
        self.lemma_reaches_members(s1, s2);
        let comp = self.compilation;
        let from = self.split_from@;
        assert forall|d: ModuleIdentifier| #[trigger] self.split_point_modules@.contains(d) implies {
            &&& from.contains_key(d)
            &&& from[d] < comp.num_chunks()
            &&& exists|x: ModuleIdentifier|
                #![trigger reaches(&comp, from[d], x)]
                reaches(&comp, from[d], x) && comp.module_graph.modules@[x as int].dynamic_dependencies@.contains(d)
        } by {
            assert(s1.split_point_modules@.contains(d));
            let x = choose|x: ModuleIdentifier| s1.chunk_has(from[d], x) && #[trigger] s1.module_dyn_deps(x).contains(d);
            assert(s1.chunk_has(from[d], x));
            assert(reaches(&comp, from[d], x));
        }
        assert(self.compilation.chunk_graph.split_points() == s1.compilation.chunk_graph.split_points());
        assert forall|g: int|
            0 <= g < comp.num_groups() && (#[trigger] comp.chunk_group_by_ukey@[g]).kind == ChunkGroupKind::Normal
            implies group_linked(&comp, g) by {
            assert(s1.compilation.chunk_group_by_ukey@[g] == comp.chunk_group_by_ukey@[g]);
            assert(group_linked(&s1.compilation, g));
            let p = choose|p: ChunkGroupUkey|
                p < s1.compilation.num_groups() && s1.compilation.chunk_group_by_ukey@[g].parents@ == set![p]
                    && #[trigger] s1.compilation.chunk_group_by_ukey@[p as int].children@.contains(g as usize);
            assert(comp.chunk_group_by_ukey@[p as int] == s1.compilation.chunk_group_by_ukey@[p as int]);
        }
        assert(pre_indexed(&comp) =~= pre_indexed(&s1.compilation));
        assert(post_indexed(&comp) =~= post_indexed(&s1.compilation));
        let sp = comp.chunk_graph.split_points();
        let points = self.split_point_modules@;
        let edges = self.edges();
        assert(edges == link_edges(sp, from, points));
        let c1 = &s1.compilation;
        assert(entry_names(&comp) =~= entry_names(c1));
        assert forall|d: ModuleIdentifier| #[trigger] dyn_imported(&comp, d) == dyn_imported(c1, d) by {}
        assert forall|d: ModuleIdentifier| #[trigger] points.contains(d) implies comp.named_chunks@.contains_key(name_of(&comp, d))
            && sp[d] == comp.named_chunks@[name_of(&comp, d)] by {
            assert(s1.split_point_modules@.contains(d));
        }
        assert forall|c: ChunkUkey, m: ModuleIdentifier|
            c < comp.num_chunks() && !(exists|d: ModuleIdentifier| #[trigger] points.contains(d) && sp[d] == c)
            implies (#[trigger] comp.chunk_graph.chunk_modules(c).contains(m) <==> reaches(&comp, c, m)) by {
            if exists|o: ChunkUkey| o < comp.num_chunks() && #[trigger] edges.contains((c, o)) && reaches(&comp, o, m) {
                let o = choose|o: ChunkUkey| o < comp.num_chunks() && #[trigger] edges.contains((c, o)) && reaches(&comp, o, m);
                assert(link_edges(sp, from, points).contains((c, o)));
                let d = choose|d: ModuleIdentifier| #[trigger] points.contains(d) && (c, o) == (sp[d], from[d]);
                assert(points.contains(d) && sp[d] == c);
            }
        }
        self.lemma_points_named(s1);
        assert forall|k: ChunkUkey| k < comp.num_chunks() implies #[trigger] chunk_id_is_name(&comp, k) by {
            assert(s1.new_chunks_id_named(0));
            assert(s1.chunk_id_named(k));
            assert(comp.chunk_by_ukey@[k as int].name == s2.compilation.chunk_by_ukey@[k as int].name);
            assert(comp.chunk_by_ukey@[k as int].id == s2.compilation.chunk_by_ukey@[k as int].id);
        }
        assert(chunk_ids_distinct(&comp)) by {
            law_chunk_ids_distinct(&comp);
        }
        self.lemma_outcome_indexed(s1, s2);
        lemma_names_outcome(&comp, edges, points, from);
        assert forall|m: ModuleIdentifier|
            m < comp.num_modules() && (#[trigger] comp.module_graph.modules@[m as int]).pre_order_index is Some
            implies comp.module_graph.modules@[m as int].pre_order_index.unwrap() < pre_indexed(&comp).len() by {
            assert(s1.module_pre(m) is Some);
        }
        assert forall|m: ModuleIdentifier|
            m < comp.num_modules() && (#[trigger] comp.module_graph.modules@[m as int]).post_order_index is Some
            implies comp.module_graph.modules@[m as int].post_order_index.unwrap() < post_indexed(&comp).len() by {
            assert(s1.module_post(m) is Some);
        }
    }

}

} // verus!
