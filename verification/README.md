# kura

Read-only knowledge-graph guardian and indexer for an Obsidian vault: it reads the whole note
corpus, builds a symbol table and link graph, and reports what is broken, orphaned or colliding.
It never modifies a file.

The library (`src/`) is written in Verus: every function carries a `requires`/`ensures` contract
over mathematical models (`Seq`, `Set`, `Multiset`, spec functions), and Verus proves the code
against it. The command-line shell (`app/`) does the I/O: walking the vault, reading files and the
schema TOML, JSON output, exit codes.

## Layout

- `src/text.rs`, `src/utf8_slice.rs`, `src/scan.rs`: characters, trimming, code-point order,
  UTF-8 byte scanning (`[[...]]` pairs, `%%` comments, newline counts).
- `src/note.rs`, `src/wikilink.rs`: frontmatter split and fields, wikilink / path-reference /
  planned-name extraction (markdown structure comes from `pulldown-cmark`, YAML from `yaml-rust2`).
- `src/model.rs`: notes, findings, severities, the stable FNV-1a fingerprint.
- `src/graph.rs`: the Obsidian-faithful resolver (filename, path and alias keys; never the title;
  trimmed, NFC, lowercased; ambiguity reported, never guessed).
- `src/rules.rs`, `src/checks.rs`: link findings (`link.broken`, `link.title_not_alias`), alias
  collisions (`collision.alias`, one finding listing every note that shares a normalized alias),
  the scoped and stably sorted report, summaries, gating by severity or rule id.
- `src/schema.rs`, `src/diskref.rs`, `src/coverage.rs`, `src/existence.rs`: schema checks,
  path-reference checks, concept coverage, the existence lookup.
- `src/report.rs`, `src/ranked.rs`: the packed terminal and markdown reports.
- `src/vault.rs`: canonical path keys and walk order.
- `src/laws.rs`: library-wide properties, each a proof function.
- `tests/`: behaviour on concrete vaults; `app/`: the `kura` binary.
