use crate::options::ChunkLoading;
use crate::options::ChunkLoadingType;
use vstd::prelude::*;

verus! {

/// A plugin of the build, as far as this library tells them apart.
#[derive(Clone, Copy, Debug, PartialEq, Eq, Structural)]
pub enum Plugin {
    /// The runtime support for loading chunks in the given way.
    ChunkLoading(ChunkLoadingType),
}

/// Adds the runtime support for loading chunks as `loading_type` says.
pub fn enable_chunk_loading_plugin(loading_type: ChunkLoadingType, plugins: &mut Vec<Plugin>)
    ensures
        final(plugins)@ == old(plugins)@.push(Plugin::ChunkLoading(loading_type)),
{
    plugins.push(Plugin::ChunkLoading(loading_type));
}

/// Makes the chunks of workers loadable: when chunk loading is enabled for workers, the
/// plugins get the support for its way of loading; otherwise they stay as they are.
pub fn worker_plugin(worker_chunk_loading: ChunkLoading, plugins: &mut Vec<Plugin>)
    ensures
        match worker_chunk_loading {
            ChunkLoading::Enable(loading_type) => final(plugins)@ == old(plugins)@.push(
                Plugin::ChunkLoading(loading_type),
            ),
            ChunkLoading::Disable => final(plugins)@ == old(plugins)@,
        },
{
    if let ChunkLoading::Enable(loading_type) = worker_chunk_loading {
        enable_chunk_loading_plugin(loading_type, plugins);
    }
}

} // verus!
