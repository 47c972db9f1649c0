# openmemory_rs

A layered memory engine for AI agents, served over the Model Context Protocol:
a bi-temporal knowledge graph, semantic facts with hybrid (vector + keyword) search,
episodic reflections, a codebase index, working memory with time-to-live, and shared
team memory, all partitioned by (user, session, agent) scope.

The memory logic is a library verified with Verus; the server around it is ordinary Rust.

## Layout

- `src/` — the verified library. Each store keeps its rows in memory and every operation
  states, over spec-level models of those rows, exactly what it returns and how the store
  changes.
  - `scope` — scopes, stored owners and the visibility rules.
  - `graph`, `decision`, `conflict` — the knowledge graph with relation versions
    (create, invalidate, history, reads as of an instant), exclusive-relation decisions and
    conflict resolution.
  - `traversal`, `digraph`, `community` — breadth-first traversal, relation chains,
    shortest paths, call-graph impact analysis and connected communities (petgraph).
  - `working`, `episodic`, `codebase`, `shared` — the other stores; `codebase` also
    indexes source text, with the syntax tree from tree-sitter.
  - `extraction`, `recall`, `fusion`, `compressor`, `compaction`, `dedup` — fact
    extraction, keyword extraction, cross-layer recall, sentence statistics for
    compression, and compaction planning.
  - `text`, `pattern`, `wordlists`, `semantic` — string helpers, `LIKE` matching, stop
    words, and the full-text query builder.
- `app/` — the MCP server: SQLite persistence, file reading, embeddings (fastembed) and
  the HNSW index, floating-point scores, and the tool handlers.
- `tests/` — tests of the library on concrete values.

Properties that relate several operations are stated as public proof functions named
`law_*` next to the operations they are about.
