use crate::compilation::ChunkGraph;
use crate::compilation::ChunkUkey;
use crate::compilation::ModuleGraph;
use crate::compilation::ModuleGraphModule;
use crate::compilation::ModuleIdentifier;
use vstd::prelude::*;

verus! {

/// The static dependencies of every module, indexed by module.
pub open spec fn dep_graph(mg: &ModuleGraph) -> Seq<Seq<usize>> {
    mg.modules@.map_values(|m: ModuleGraphModule| m.dependencies@)
}

/// A root of chunk `c`: an entry module of it, or a module recorded as starting it.
pub open spec fn is_root(cg: ChunkGraph, c: ChunkUkey, m: ModuleIdentifier) -> bool {
    ||| cg.has_chunk(c) && cg.entry_modules(c).contains_key(m)
    ||| cg.split_points().contains_key(m) && cg.split_points()[m] == c
}

/// A walk along static imports in `graph`.
pub open spec fn is_dep_path(graph: Seq<Seq<usize>>, path: Seq<usize>) -> bool {
    &&& path.len() >= 1
    &&& forall|i: int| 0 <= i < path.len() ==> (#[trigger] path[i]) < graph.len()
    &&& forall|i: int|
        0 <= i < path.len() - 1 ==> #[trigger] graph[path[i] as int].contains(path[i + 1])
}

/// Module `m` can be reached from a root of chunk `c` along static imports.
pub open spec fn reachable(
    graph: Seq<Seq<usize>>,
    cg: ChunkGraph,
    c: ChunkUkey,
    m: ModuleIdentifier,
) -> bool {
    exists|path: Seq<usize>|
        #[trigger] is_dep_path(graph, path) && is_root(cg, c, path[0]) && path.last() == m
}

/// A root that is a module of the graph is reachable from its chunk.
pub proof fn lemma_reachable_root(
    graph: Seq<Seq<usize>>,
    cg: ChunkGraph,
    c: ChunkUkey,
    m: ModuleIdentifier,
)
    requires
        is_root(cg, c, m),
        m < graph.len(),
    ensures
        reachable(graph, cg, c, m),
{
    let path = seq![m];
    assert(is_dep_path(graph, path));
}

/// Whatever a reachable module imports statically is reachable too.
pub proof fn lemma_reachable_step(
    graph: Seq<Seq<usize>>,
    cg: ChunkGraph,
    c: ChunkUkey,
    m: ModuleIdentifier,
    dep: ModuleIdentifier,
)
    requires
        reachable(graph, cg, c, m),
        m < graph.len(),
        graph[m as int].contains(dep),
        dep < graph.len(),
    ensures
        reachable(graph, cg, c, dep),
{
    let path = choose|path: Seq<usize>|
        #[trigger] is_dep_path(graph, path) && is_root(cg, c, path[0]) && path.last() == m;
    let longer = path.push(dep);
    assert forall|i: int| 0 <= i < longer.len() - 1 implies #[trigger] graph[longer[i] as int].contains(
        longer[i + 1],
    ) by {
        if i < path.len() - 1 {
            assert(graph[path[i] as int].contains(path[i + 1]));
        }
    }
    assert(is_dep_path(graph, longer));
    assert(longer[0] == path[0]);
}

/// Reachability survives any change that keeps every root a root.
pub proof fn lemma_reachable_mono(graph: Seq<Seq<usize>>, a: ChunkGraph, b: ChunkGraph)
    requires
        forall|c: ChunkUkey, r: ModuleIdentifier| #[trigger] is_root(a, c, r) ==> is_root(b, c, r),
    ensures
        forall|c: ChunkUkey, m: ModuleIdentifier|
            #[trigger] reachable(graph, a, c, m) ==> reachable(graph, b, c, m),
{
    assert forall|c: ChunkUkey, m: ModuleIdentifier| #[trigger]
        reachable(graph, a, c, m) implies reachable(graph, b, c, m) by {
        let path = choose|path: Seq<usize>|
            #[trigger] is_dep_path(graph, path) && is_root(a, c, path[0]) && path.last() == m;
        assert(is_root(b, c, path[0]));
    }
}

/// A set that holds the roots of a chunk and everything its members import holds
/// everything reachable from the chunk.
pub proof fn lemma_reachable_within(
    graph: Seq<Seq<usize>>,
    cg: ChunkGraph,
    c: ChunkUkey,
    members: Set<ModuleIdentifier>,
    m: ModuleIdentifier,
)
    requires
        reachable(graph, cg, c, m),
        forall|r: ModuleIdentifier| is_root(cg, c, r) ==> #[trigger] members.contains(r),
        forall|x: ModuleIdentifier, y: ModuleIdentifier|
            #[trigger] members.contains(x) && x < graph.len() && #[trigger] graph[x as int].contains(y)
                ==> members.contains(y),
    ensures
        members.contains(m),
{
    let path = choose|path: Seq<usize>|
        #[trigger] is_dep_path(graph, path) && is_root(cg, c, path[0]) && path.last() == m;
    lemma_path_within(graph, path, members, path.len() - 1);
}

/// Every step of a walk that starts in a set closed under imports stays in it.
proof fn lemma_path_within(
    graph: Seq<Seq<usize>>,
    path: Seq<usize>,
    members: Set<ModuleIdentifier>,
    i: int,
)
    requires
        is_dep_path(graph, path),
        0 <= i < path.len(),
        members.contains(path[0]),
        forall|x: ModuleIdentifier, y: ModuleIdentifier|
            #[trigger] members.contains(x) && x < graph.len() && #[trigger] graph[x as int].contains(y)
                ==> members.contains(y),
    ensures
        members.contains(path[i]),
    decreases i,
{
    if i > 0 {
        lemma_path_within(graph, path, members, i - 1);
        let j = i - 1;
        assert(graph[path[j] as int].contains(path[j + 1]));
        assert(path[j] < graph.len());
        assert(j + 1 == i);
    }
}

} // verus!
