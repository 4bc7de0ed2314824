use rspack_split_chunks::compilation::Compilation;
use rspack_split_chunks::compilation::EntryData;
use rspack_split_chunks::compilation::EntryOptions;
use rspack_split_chunks::compilation::ModuleGraphModule;
use rspack_split_chunks::split_chunks::code_splitting;
use rspack_split_chunks::split_chunks::CodeSplitter;
use rspack_split_chunks::split_chunks::SplitError;
use std::collections::HashSet;

fn module(id: usize, name: &str, deps: Vec<usize>, dyn_deps: Vec<usize>) -> ModuleGraphModule {
    ModuleGraphModule {
        module_identifier: id,
        chunk_name: name.to_string(),
        dependencies: deps,
        dynamic_dependencies: dyn_deps,
        pre_order_index: None,
        post_order_index: None,
    }
}

fn options(runtime: Option<&str>) -> EntryOptions {
    EntryOptions {
        runtime: runtime.map(|r| r.to_string()),
        chunk_loading: None,
        async_chunks: None,
        public_path: None,
        base_uri: None,
    }
}

fn entry(name: &str, runtime: Option<&str>, deps: Vec<usize>) -> EntryData {
    EntryData { name: name.to_string(), options: options(runtime), dependencies: deps }
}

/// main --static--> shared, main --import()--> lazy --static--> shared
fn lazy_compilation() -> Compilation {
    let mut c = Compilation::empty();
    c.module_graph.modules.push(module(0, "main", vec![1], vec![2]));
    c.module_graph.modules.push(module(1, "shared", vec![], vec![]));
    c.module_graph.modules.push(module(2, "lazy", vec![1], vec![]));
    c.module_graph.dependency_modules.push(Some(0));
    c.entries.push(entry("main", None, vec![0]));
    c
}

fn chunk_modules(c: &Compilation, chunk: usize) -> HashSet<usize> {
    c.chunk_graph.chunk_graph_chunk_by_chunk_ukey.get(&chunk).unwrap().modules.clone()
}

fn set(items: &[usize]) -> HashSet<usize> {
    items.iter().copied().collect()
}

#[test]
fn entry_chunk_holds_what_it_reaches() {
    let mut c = lazy_compilation();
    assert_eq!(code_splitting(&mut c), Ok(()));
    assert_eq!(c.chunk_by_ukey.len(), 2);
    assert_eq!(c.chunk_by_ukey[0].name.as_deref(), Some("main"));
    assert_eq!(chunk_modules(&c, 0), set(&[0, 1]));
}

#[test]
fn dynamic_import_starts_a_chunk_without_what_its_importer_holds() {
    let mut c = lazy_compilation();
    assert_eq!(code_splitting(&mut c), Ok(()));
    assert_eq!(c.chunk_by_ukey[1].name.as_deref(), Some("lazy"));
    // `shared` is reached from `lazy` too, but the importing chunk holds it already.
    assert_eq!(chunk_modules(&c, 1), set(&[2]));
    assert_eq!(c.chunk_graph.split_point_module_identifier_to_chunk_ukey.get(&2), Some(&1));
}

#[test]
fn split_chunk_gets_a_group_under_the_importer() {
    let mut c = lazy_compilation();
    assert_eq!(code_splitting(&mut c), Ok(()));
    assert_eq!(c.chunk_group_by_ukey.len(), 2);
    assert_eq!(c.chunk_group_by_ukey[0].chunks, vec![0]);
    assert_eq!(c.chunk_group_by_ukey[1].chunks, vec![1]);
    assert!(c.chunk_group_by_ukey[0].children.contains(&1));
    assert!(c.chunk_group_by_ukey[1].parents.contains(&0));
    assert_eq!(c.chunk_group_by_ukey[0].entry_point_chunk, Some(0));
    assert_eq!(c.chunk_group_by_ukey[0].runtime_chunk, Some(0));
}

#[test]
fn modules_get_distinct_order_indices_in_visiting_order() {
    let mut c = lazy_compilation();
    assert_eq!(code_splitting(&mut c), Ok(()));
    let pre: Vec<Option<usize>> = c.module_graph.modules.iter().map(|m| m.pre_order_index).collect();
    let post: Vec<Option<usize>> = c.module_graph.modules.iter().map(|m| m.post_order_index).collect();
    assert_eq!(pre, vec![Some(0), Some(1), Some(2)]);
    assert_eq!(post, vec![Some(1), Some(0), Some(2)]);
    let g0 = &c.chunk_group_by_ukey[0];
    assert_eq!(g0.module_pre_order_indices.get(&0), Some(&0));
    assert_eq!(g0.module_pre_order_indices.get(&1), Some(&1));
    assert_eq!(g0.module_post_order_indices.get(&1), Some(&0));
    assert_eq!(g0.module_post_order_indices.get(&0), Some(&1));
    let g1 = &c.chunk_group_by_ukey[1];
    assert_eq!(g1.module_pre_order_indices.get(&2), Some(&0));
    assert_eq!(g1.module_pre_order_indices.get(&1), Some(&1));
    assert_eq!(g1.module_post_order_indices.get(&1), Some(&0));
    assert_eq!(g1.module_post_order_indices.get(&2), Some(&1));
}

#[test]
fn entrypoint_chunks_run_in_the_entry_runtime() {
    let mut c = lazy_compilation();
    assert_eq!(code_splitting(&mut c), Ok(()));
    assert_eq!(c.chunk_by_ukey[0].runtime, vec!["main".to_string()]);
    assert!(c.chunk_by_ukey[1].runtime.is_empty());
}

#[test]
fn unresolved_entry_dependency_is_an_error() {
    let mut c = Compilation::empty();
    c.module_graph.modules.push(module(0, "main", vec![], vec![]));
    c.module_graph.dependency_modules.push(None);
    c.entries.push(entry("main", None, vec![0]));
    assert_eq!(code_splitting(&mut c), Err(SplitError::NoModuleFound));
}

#[test]
fn runtime_option_puts_a_runtime_chunk_first() {
    let mut c = Compilation::empty();
    c.module_graph.modules.push(module(0, "main", vec![], vec![]));
    c.module_graph.dependency_modules.push(Some(0));
    c.entries.push(entry("main", Some("rt"), vec![0]));
    assert_eq!(code_splitting(&mut c), Ok(()));
    assert_eq!(c.chunk_by_ukey.len(), 2);
    assert_eq!(c.chunk_by_ukey[1].name.as_deref(), Some("rt"));
    let g = &c.chunk_group_by_ukey[0];
    assert_eq!(g.chunks, vec![1, 0]);
    assert_eq!(g.runtime_chunk, Some(1));
    assert_eq!(g.entry_point_chunk, Some(0));
    assert_eq!(c.chunk_by_ukey[0].runtime, vec!["main".to_string()]);
    assert_eq!(c.chunk_by_ukey[1].runtime, vec!["main".to_string()]);
    assert_eq!(chunk_modules(&c, 0), set(&[0]));
    assert!(chunk_modules(&c, 1).is_empty());
}

#[test]
fn entries_sharing_a_module_each_hold_it() {
    let mut c = Compilation::empty();
    c.module_graph.modules.push(module(0, "a", vec![1], vec![]));
    c.module_graph.modules.push(module(1, "common", vec![], vec![]));
    c.module_graph.modules.push(module(2, "b", vec![1], vec![]));
    c.module_graph.dependency_modules.push(Some(0));
    c.module_graph.dependency_modules.push(Some(2));
    c.entries.push(entry("a", None, vec![0]));
    c.entries.push(entry("b", None, vec![1]));
    assert_eq!(code_splitting(&mut c), Ok(()));
    assert_eq!(chunk_modules(&c, 0), set(&[0, 1]));
    assert_eq!(chunk_modules(&c, 1), set(&[2, 1]));
    assert_eq!(c.chunk_by_ukey[0].runtime, vec!["a".to_string()]);
    assert_eq!(c.chunk_by_ukey[1].runtime, vec!["b".to_string()]);
}

#[test]
fn import_of_an_entry_module_splits_it_again() {
    // a --import()--> a: the entry module becomes a split point of its own chunk name.
    let mut c = Compilation::empty();
    c.module_graph.modules.push(module(0, "again", vec![], vec![0]));
    c.module_graph.dependency_modules.push(Some(0));
    c.entries.push(entry("main", None, vec![0]));
    assert_eq!(code_splitting(&mut c), Ok(()));
    assert_eq!(c.chunk_by_ukey.len(), 2);
    assert_eq!(chunk_modules(&c, 0), set(&[0]));
    // The split chunk reaches module 0, which the chunk it relates to holds.
    assert!(chunk_modules(&c, 1).is_empty());
}

#[test]
fn splitter_new_starts_empty() {
    let splitter = CodeSplitter::new(lazy_compilation());
    assert!(splitter.queue.is_empty());
    assert!(splitter.queue_delayed.is_empty());
    assert!(splitter.split_point_modules.is_empty());
    assert_eq!(splitter.next_free_module_pre_order_index, 0);
    assert_eq!(splitter.next_free_module_post_order_index, 0);
}

#[test]
fn splitter_split_reports_unresolved_entries() {
    let mut c = Compilation::empty();
    c.module_graph.modules.push(module(0, "main", vec![], vec![]));
    c.module_graph.dependency_modules.push(None);
    c.entries.push(entry("main", None, vec![0]));
    let mut splitter = CodeSplitter::new(c);
    assert_eq!(splitter.split(), Err(SplitError::NoModuleFound));
}

#[test]
fn entry_is_recorded_with_its_entry_module() {
    let mut c = lazy_compilation();
    assert_eq!(code_splitting(&mut c), Ok(()));
    assert_eq!(c.entrypoints.get("main"), Some(&0));
    assert_eq!(c.named_chunks.get("main"), Some(&0));
    let chunk0 = c.chunk_graph.chunk_graph_chunk_by_chunk_ukey.get(&0).unwrap();
    assert_eq!(chunk0.entry_modules.get(&0), Some(&0));
    assert!(c.chunk_graph.chunk_graph_chunk_by_chunk_ukey.get(&1).unwrap().entry_modules.is_empty());
}

#[test]
fn entries_sharing_a_runtime_share_its_chunk() {
    let mut c = Compilation::empty();
    c.module_graph.modules.push(module(0, "a", vec![], vec![]));
    c.module_graph.modules.push(module(1, "b", vec![], vec![]));
    c.module_graph.dependency_modules.push(Some(0));
    c.module_graph.dependency_modules.push(Some(1));
    c.entries.push(entry("a", Some("rt"), vec![0]));
    c.entries.push(entry("b", Some("rt"), vec![1]));
    assert_eq!(code_splitting(&mut c), Ok(()));
    // Chunks: a, b, then one runtime chunk for both.
    assert_eq!(c.chunk_by_ukey.len(), 3);
    assert_eq!(c.named_chunks.get("rt"), Some(&2));
    assert_eq!(c.chunk_group_by_ukey[0].chunks, vec![2, 0]);
    assert_eq!(c.chunk_group_by_ukey[1].chunks, vec![2, 1]);
    assert_eq!(c.chunk_group_by_ukey[0].runtime_chunk, Some(2));
    assert_eq!(c.chunk_group_by_ukey[1].runtime_chunk, Some(2));
    let mut rt = c.chunk_by_ukey[2].runtime.clone();
    rt.sort();
    assert_eq!(rt, vec!["a".to_string(), "b".to_string()]);
}

#[test]
fn runtime_named_after_another_entry_reuses_its_chunk() {
    let mut c = Compilation::empty();
    c.module_graph.modules.push(module(0, "a", vec![], vec![]));
    c.module_graph.modules.push(module(1, "b", vec![], vec![]));
    c.module_graph.dependency_modules.push(Some(0));
    c.module_graph.dependency_modules.push(Some(1));
    c.entries.push(entry("a", None, vec![0]));
    c.entries.push(entry("b", Some("a"), vec![1]));
    assert_eq!(code_splitting(&mut c), Ok(()));
    assert_eq!(c.chunk_by_ukey.len(), 2);
    assert_eq!(c.chunk_group_by_ukey[1].chunks, vec![0, 1]);
    assert_eq!(c.chunk_group_by_ukey[1].runtime_chunk, Some(0));
    assert_eq!(c.chunk_group_by_ukey[1].entry_point_chunk, Some(1));
}

#[test]
fn module_of_two_entries_is_recorded_with_the_last() {
    let mut c = Compilation::empty();
    c.module_graph.modules.push(module(0, "shared", vec![], vec![]));
    c.module_graph.dependency_modules.push(Some(0));
    c.entries.push(entry("a", None, vec![0]));
    c.entries.push(entry("b", None, vec![0]));
    assert_eq!(code_splitting(&mut c), Ok(()));
    assert_eq!(c.chunk_graph.split_point_module_identifier_to_chunk_ukey.get(&0), Some(&1));
    assert_eq!(chunk_modules(&c, 0), set(&[0]));
    assert_eq!(chunk_modules(&c, 1), set(&[0]));
}

#[test]
fn split_chunk_relates_only_to_its_first_importer() {
    // a: 0 -> 3, import(2); b: 1 -> 4, import(2); 2 -> 3, 4.
    let mut c = Compilation::empty();
    c.module_graph.modules.push(module(0, "a", vec![3], vec![2]));
    c.module_graph.modules.push(module(1, "b", vec![4], vec![2]));
    c.module_graph.modules.push(module(2, "lazy", vec![3, 4], vec![]));
    c.module_graph.modules.push(module(3, "three", vec![], vec![]));
    c.module_graph.modules.push(module(4, "four", vec![], vec![]));
    c.module_graph.dependency_modules.push(Some(0));
    c.module_graph.dependency_modules.push(Some(1));
    c.entries.push(entry("a", None, vec![0]));
    c.entries.push(entry("b", None, vec![1]));
    assert_eq!(code_splitting(&mut c), Ok(()));
    // One chunk and one group for the module imported twice.
    assert_eq!(c.chunk_by_ukey.len(), 3);
    assert_eq!(c.chunk_group_by_ukey.len(), 3);
    assert_eq!(c.chunk_graph.split_point_module_identifier_to_chunk_ukey.get(&2), Some(&2));
    // The split chunk gives up what chunk `a` holds, not what chunk `b` holds.
    assert_eq!(chunk_modules(&c, 2), set(&[2, 4]));
    assert!(c.chunk_group_by_ukey[2].parents.contains(&0));
    assert!(!c.chunk_group_by_ukey[2].parents.contains(&1));
    assert!(c.chunk_group_by_ukey[0].children.contains(&2));
    assert!(c.chunk_group_by_ukey[1].children.is_empty());
}

#[test]
fn modules_are_numbered_depth_first() {
    // main: 0 -> 1 -> 2, 0 -> 3.
    let mut c = Compilation::empty();
    c.module_graph.modules.push(module(0, "main", vec![1, 3], vec![]));
    c.module_graph.modules.push(module(1, "one", vec![2], vec![]));
    c.module_graph.modules.push(module(2, "two", vec![], vec![]));
    c.module_graph.modules.push(module(3, "three", vec![], vec![]));
    c.module_graph.dependency_modules.push(Some(0));
    c.entries.push(entry("main", None, vec![0]));
    assert_eq!(code_splitting(&mut c), Ok(()));
    let pre: Vec<Option<usize>> = c.module_graph.modules.iter().map(|m| m.pre_order_index).collect();
    let post: Vec<Option<usize>> = c.module_graph.modules.iter().map(|m| m.post_order_index).collect();
    assert_eq!(pre, vec![Some(0), Some(1), Some(2), Some(3)]);
    assert_eq!(post, vec![Some(3), Some(1), Some(0), Some(2)]);
}

/// main --static--> shared, main --import()--> lazy, whose chunk name is "main" too
#[test]
fn dynamic_import_named_like_its_importer_joins_its_chunk() {
    let mut c = Compilation::empty();
    c.module_graph.modules.push(module(0, "main", vec![1], vec![2]));
    c.module_graph.modules.push(module(1, "shared", vec![], vec![]));
    c.module_graph.modules.push(module(2, "main", vec![], vec![]));
    c.module_graph.dependency_modules.push(Some(0));
    c.entries.push(entry("main", None, vec![0]));
    assert_eq!(code_splitting(&mut c), Ok(()));
    // No chunk is added: the name is taken, and the split point records the taken chunk.
    assert_eq!(c.chunk_by_ukey.len(), 1);
    assert_eq!(c.chunk_graph.split_point_module_identifier_to_chunk_ukey.get(&2), Some(&0));
    assert_eq!(c.chunk_group_by_ukey.len(), 2);
    assert_eq!(c.chunk_group_by_ukey[1].chunks, vec![0]);
    // The chunk is then related to itself, so every module it holds counts as held by a
    // related chunk and is taken out.
    assert_eq!(chunk_modules(&c, 0), set(&[]));
}

#[test]
fn entry_names_bind_entrypoints_and_named_groups_alike() {
    let mut c = Compilation::empty();
    c.module_graph.modules.push(module(0, "a", vec![], vec![]));
    c.module_graph.modules.push(module(1, "b", vec![], vec![]));
    c.module_graph.dependency_modules.push(Some(0));
    c.module_graph.dependency_modules.push(Some(1));
    c.entries.push(entry("a", None, vec![0]));
    c.entries.push(entry("b", None, vec![1]));
    assert_eq!(code_splitting(&mut c), Ok(()));
    assert_eq!(c.entrypoints.len(), 2);
    assert_eq!(c.named_chunk_groups.len(), 2);
    assert_eq!(c.entrypoints.get("a"), Some(&0));
    assert_eq!(c.named_chunk_groups.get("a"), Some(&0));
    assert_eq!(c.entrypoints.get("b"), Some(&1));
    assert_eq!(c.named_chunk_groups.get("b"), Some(&1));
    let chunk1 = c.chunk_graph.chunk_graph_chunk_by_chunk_ukey.get(&1).unwrap();
    assert_eq!(chunk1.entry_modules.get(&1), Some(&1));
}
