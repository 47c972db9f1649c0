pub mod text;
pub mod scope;
pub mod working;
pub mod wordlists;
pub mod dedup;
pub mod recall;
pub mod graph;
pub mod pattern;
pub mod digraph;
pub mod traversal;
pub mod episodic;
pub mod fusion;
pub mod conflict;
pub mod compaction;
pub mod codebase;
pub mod decision;
pub mod extraction;
pub mod compressor;
pub mod community;
pub mod shared;
pub mod semantic;
