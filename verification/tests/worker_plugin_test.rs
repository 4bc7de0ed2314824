use rspack_split_chunks::options::ChunkLoading;
use rspack_split_chunks::options::ChunkLoadingType;
use rspack_split_chunks::raw_entry::RawEntryDescription;
use rspack_split_chunks::worker_plugin::enable_chunk_loading_plugin;
use rspack_split_chunks::worker_plugin::worker_plugin;
use rspack_split_chunks::worker_plugin::Plugin;

#[test]
fn enabled_worker_chunk_loading_adds_its_plugin() {
    let mut plugins = vec![Plugin::ChunkLoading(ChunkLoadingType::Jsonp)];
    worker_plugin(ChunkLoading::Enable(ChunkLoadingType::ImportScripts), &mut plugins);
    assert_eq!(
        plugins,
        vec![
            Plugin::ChunkLoading(ChunkLoadingType::Jsonp),
            Plugin::ChunkLoading(ChunkLoadingType::ImportScripts),
        ]
    );
}

#[test]
fn disabled_worker_chunk_loading_adds_nothing() {
    let mut plugins = vec![Plugin::ChunkLoading(ChunkLoadingType::Jsonp)];
    worker_plugin(ChunkLoading::Disable, &mut plugins);
    assert_eq!(plugins, vec![Plugin::ChunkLoading(ChunkLoadingType::Jsonp)]);
}

#[test]
fn enabling_chunk_loading_appends() {
    let mut plugins = Vec::new();
    enable_chunk_loading_plugin(ChunkLoadingType::Require, &mut plugins);
    assert_eq!(plugins, vec![Plugin::ChunkLoading(ChunkLoadingType::Require)]);
}

#[test]
fn raw_entry_description_holds_its_fields() {
    let entry = RawEntryDescription {
        import: vec!["./index.js".to_string()],
        runtime: Some("rt".to_string()),
        chunk_loading: Some("jsonp".to_string()),
        async_chunks: Some(true),
        public_path: None,
        base_uri: None,
    };
    assert_eq!(entry.import, vec!["./index.js".to_string()]);
    assert_eq!(entry.runtime.as_deref(), Some("rt"));
    assert_eq!(entry.async_chunks, Some(true));
}
