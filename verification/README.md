# dowel

The core of a build system for C and C++ projects, written in Verus: each
function states what it does in `requires`/`ensures`, and Verus proves it.

- `src/` is the verified library. It holds the configuration vocabulary,
  the property schema and its merge rules, typed values and their
  provenance, the reading of `dowel.toml` and of the tables of `dowel.build`
  (`manifest`, `declare`), dependency resolution and the target graph
  (`deps`, `graph`, `walk`), interfaces (`interface`), the byte format of
  stored documents (`codec`), the incremental query engine (`query`) and
  the digests its early cutoff compares (`digest`), the
  on-disk stores (`store`, `inputs`, `facts`, `persist`), and the framing of
  the language server's messages (`rpc`, `lsp`).
- `app/` is ordinary Rust around it: reading and writing files, the
  environment, and the language server's streams.
- `tests/` exercises the library on concrete inputs.
