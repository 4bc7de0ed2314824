pub mod ast;
pub mod chunk_relation;
pub mod compilation;
pub mod dependency;
pub mod hash;
pub mod options;
pub mod raw_entry;
pub mod reach;
pub mod set_facts;
pub mod split_chunks;
pub mod split_steps;
pub mod url_scanner;
pub mod worker_plugin;
pub mod worker_scanner;
