# context_compiler

`ctx` turns a natural-language coding task into a compact, ranked and
trimmed context pack built from an indexed codebase.

## Layout

- `src/` — the library, verified with Verus:
  - `text.rs`: character-level text primitives (trim, lines, words, search,
    UTF-8 lengths) specified over `Seq<char>`.
  - `tree.rs`: language detection, summaries, import lines, token estimates,
    content hashes and ignore rules.
  - `trim.rs`: the line filter that drops comments, logging and blank lines,
    and the formatted context pack.
  - `signal.rs`: ranking by score, budgeted selection, filename matches,
    import-graph and history facts.
  - `rerank.rs`: the reranker's prompt, fenced-JSON extraction and how the
    model's verdicts reorder candidates.
  - `config.rs`: defaults, environment overrides, layered merging, configure
    requests and provider/model selection.
  - `store.rs`, `index.rs`, `embed.rs`, `compile.rs`, `report.rs`: index
    paths and full-text queries, import resolution, search terms and
    identifiers, pipeline decisions, and what the command line shows.
- `tests/` — tests of the library on concrete values.
- `app/` — the `ctx` program: command-line parsing, SQLite storage, HTTP
  calls to the embedding and chat APIs, floating-point scoring, the file
  walk, clipboard and terminal output.

Scores are carried inside the library as integer order keys of their
`f32` values (`signal::score_key`), so ranking matches the floating-point
order exactly; the program computes the scores and formats them for
display.

Lookups the command line does by path or language name (who imports a
file, how often past tasks chose it, the model's verdict for a file, files
per language) are held as vectors scanned in order rather than hash maps
keyed by strings: Verus proves little about maps with `String` keys, and a
scan states exactly which entry wins (for verdicts, the last one for a
path) and in what order language ties come out (first appearance).
