# hut_content_schema

The manifest schema of a puzzle hunt, verified with Verus.

A puzzle is authored as a `content.toml` file. Two views are taken of it:

- its **behavior** (`id`, `title`, patches, answers), which a game server
  reads at runtime from one generated `behavior.toml`;
- its **content graph** (contents, data, hints, and their grants), which is
  compressed, encrypted under a hierarchy of derived keys and registered with
  a version registry before it is published.

Layout:

- `src/` — the verified library.
  - `crypto` — key and object-path derivation (BLAKE3 `derive_key`), base32,
    and the `HU&T` blob format sealed with AES-256-GCM.
  - `patch`, `answer`, `behavior` — the behavior schema; selecting the
    operations of chosen patches; the stable sort by puzzle id.
  - `resource_id`, `resource`, `content_gzip` — resources, grants, the key
    hierarchy, and building one resource into sealed or inherited artifacts.
  - `json` — the JSON values the library writes, and their compact text.
  - `version_registry` — the registry seam and an in-memory registry.
  - `scope` — a puzzle scope's config, its checks and resolution, and
    building a whole scope.
  - `collect` — which files are manifests.
- `tests/` — tests of the library against the outside crates it calls.
- `app/` — the command-line tools: walking a manifest tree, reading TOML,
  JSON, Markdown and HTML files, writing `behavior.toml`.
