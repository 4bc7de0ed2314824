use vstd::prelude::*;

verus! {

/// How the chunks of a runtime load the chunks they need.
#[derive(Clone, Copy, Debug, PartialEq, Eq, Structural)]
pub enum ChunkLoadingType {
    Jsonp,
    ImportScripts,
    Require,
    AsyncNode,
    Import,
}

/// Whether chunks are loaded on demand, and how.
#[derive(Clone, Copy, Debug, PartialEq, Eq, Structural)]
pub enum ChunkLoading {
    Enable(ChunkLoadingType),
    Disable,
}

/// The hash function that names things after their contents.
#[derive(Clone, Copy, Debug, PartialEq, Eq, Structural)]
pub enum HashFunction {
    Xxhash64,
    MD4,
}

/// How a hash digest is written out.
#[derive(Clone, Copy, Debug, PartialEq, Eq, Structural)]
pub enum HashDigest {
    Hex,
}

/// What is hashed before anything else.
#[derive(Clone, Debug, PartialEq, Eq)]
pub enum HashSalt {
    NoSalt,
    Salt(String),
}

/// The output options that the scanners read.
#[derive(Clone, Debug)]
pub struct OutputOptions {
    pub hash_function: HashFunction,
    pub hash_digest: HashDigest,
    /// How many characters of a digest are kept.
    pub hash_digest_length: usize,
    pub hash_salt: HashSalt,
    /// How the chunks of a worker load the chunks they need.
    pub worker_chunk_loading: ChunkLoading,
}

} // verus!
