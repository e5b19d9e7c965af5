# krita_vcs

A local version-control store for Krita documents, written in Verus. The library (`src/`)
holds the logic with its contracts and proofs; `app/` is the `kvc` command-line program around
it, which reads and writes files and calls the library for every decision.

What the library covers:

- **Storage** (`chains`, `delta`): every file, document manifest, archive entry and tile is a
  stream of versions, each a zstd snapshot or a bsdiff patch against the previous version,
  deduplicated by content hash. `delta::lemma_store_keeps_sound` and
  `delta::lemma_sound_chain_restores` state that every stored version can be restored.
- **Krita documents** (`tiles`, `lzf`, `raster`, `kra`, `kra_store`, `materialize`, `art`,
  `merge`): the tiled layer-data format (parse and serialize are exact inverses), the LZF tile
  codec, the manifest of a stored document, how an archive entry becomes streams and how a
  document is rebuilt from them, how the layers of two versions compare, and the layer-merge
  folding.
- **History** (`commit`, `branch`, `stash`, `restore`): commits and their trees, branches,
  fast-forward and three-way merges, set-aside work, discard and rollback.
- **Housekeeping** (`gc`, `check`, `stats`): which commits and stream versions are live, what a
  cleanup may drop, what a check reports, and how much storage history takes.
- **Viewer support** (`canvas`, `overlay`, `outline`, `palette`): raster capping, diff masks,
  the changed-area outline's cells and edges, PNG data URLs, and palette parsing and diffing.

The calls into outside crates (zstd, qbsdiff, png, blake3) sit behind small wrappers whose
contracts say what those crates do; everything built on them is verified.
