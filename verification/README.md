# ferrex

A local-first memory server for AI agents, speaking MCP over stdio. Agents
store episodic events, semantic facts (subject–predicate–object triples) and
procedures, recall them by meaning, and audit them for staleness and
contradictions.

## Layout

- `src/` — the library, verified with Verus. Every decision the server makes
  lives here with its contract: request validation, memory-type detection,
  predicate normalisation, conflict classification and deduplication,
  entity matching, the recall filter and ranking, the recall cache (an LRU
  cache with per-namespace generations), staleness labels and eviction order,
  contradiction detection, the dual-write journal and its recovery plan, the
  audit between the two stores, and configuration defaults. Floating-point
  values travel as their IEEE-754 bits.
- `app/` — the server around it: command-line handling, the SQLite metadata
  store, the Qdrant vector store, the embedding and reranking models, the
  floating-point scores (staleness decay, recency boost), and the MCP tools.
- `tests/` — tests of the library on concrete values.

## Commands

```
ferrex                                             # start the MCP server
ferrex audit reconcile [--fix]                     # find (and fix) store mismatches
ferrex backfill normalized-predicates [--dry-run]  # fill missing normalized predicates
```
