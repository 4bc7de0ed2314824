use crate::ast::Span;
use crate::compilation::EntryOptions;
use crate::options::ChunkLoading;
use vstd::prelude::*;

verus! {

/// The options of a chunk group that a dependency starts.
#[derive(Clone, Debug)]
pub struct ChunkGroupOptions {
    pub name: Option<String>,
    pub entry_options: Option<EntryOptions>,
}

/// `new Worker(new URL("./w.js", import.meta.url))`: the worker script starts an entry
/// of its own.
#[derive(Clone, Debug)]
pub struct WorkerDependency {
    /// Where the request string starts, as a zero-based offset.
    pub start: u32,
    /// Where `import.meta.url` ends, as a zero-based offset.
    pub end: u32,
    pub request: String,
    pub span: Option<Span>,
    pub group_options: ChunkGroupOptions,
}

/// `new URL("./a.png", import.meta.url)`: an asset the module refers to.
#[derive(Clone, Debug)]
pub struct NewURLDependency {
    pub start: u32,
    pub end: u32,
    pub url: String,
    pub span: Option<Span>,
}

/// A dependency that a scanner found.
#[derive(Clone, Debug)]
pub enum ModuleDependency {
    Worker(WorkerDependency),
    NewUrl(NewURLDependency),
}

impl WorkerDependency {
    pub fn new(
        start: u32,
        end: u32,
        request: String,
        span: Option<Span>,
        group_options: ChunkGroupOptions,
    ) -> (dep: WorkerDependency)
        ensures
            dep.start == start,
            dep.end == end,
            dep.request == request,
            dep.span == span,
            dep.group_options == group_options,
    {
        WorkerDependency { start, end, request, span, group_options }
    }
}

impl NewURLDependency {
    pub fn new(start: u32, end: u32, url: String, span: Option<Span>) -> (dep: NewURLDependency)
        ensures
            dep.start == start,
            dep.end == end,
            dep.url == url,
            dep.span == span,
    {
        NewURLDependency { start, end, url, span }
    }
}

/// `d` is the dependency on the asset `url` found between `start` and `end` in the
/// `new` expression spanning `span`.
pub open spec fn is_url_dependency(
    d: ModuleDependency,
    start: u32,
    end: u32,
    url: Seq<char>,
    span: Span,
) -> bool {
    match d {
        ModuleDependency::NewUrl(u) => u.start == start && u.end == end && u.url@ == url && u.span
            == Some(span),
        _ => false,
    }
}

/// `d` is the dependency on the worker script `request` found between `start` and `end`
/// in the `new` expression spanning `span`, whose entry runs in runtime `runtime` and loads
/// its chunks as `chunk_loading` says.
pub open spec fn is_worker_dependency(
    d: ModuleDependency,
    start: u32,
    end: u32,
    request: Seq<char>,
    span: Span,
    runtime: Seq<char>,
    chunk_loading: ChunkLoading,
) -> bool {
    match d {
        ModuleDependency::Worker(w) => {
            &&& w.start == start
            &&& w.end == end
            &&& w.request@ == request
            &&& w.span == Some(span)
            &&& w.group_options.name is None
            &&& w.group_options.entry_options matches Some(o) && {
                &&& o.runtime matches Some(r) && r@ == runtime
                &&& o.chunk_loading == Some(chunk_loading)
                &&& o.async_chunks is None
                &&& o.public_path is None
                &&& o.base_uri is None
            }
        },
        _ => false,
    }
}

} // verus!
