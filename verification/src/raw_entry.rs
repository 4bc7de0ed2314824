use vstd::prelude::*;

verus! {

/// An entry as the bindings hand it over: the requests it starts from and its options.
#[derive(Clone, Debug)]
pub struct RawEntryDescription {
    pub import: Vec<String>,
    pub runtime: Option<String>,
    pub chunk_loading: Option<String>,
    pub async_chunks: Option<bool>,
    pub public_path: Option<String>,
    pub base_uri: Option<String>,
}

} // verus!
