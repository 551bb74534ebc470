# texture_paths

A verified library that rewrites the texture paths of Warcraft III models
(`.mdx` binary models and `.mdl` text models), with a small desktop shell
around it.

- `src/` — the library, verified with Verus:
  - `text.rs`: character-level operations (case, slashes, search, trimming,
    replacement, decimal digits) with their mathematical statements;
  - `encoding.rs`: the GBK encoding of model files, through `encoding_rs`;
  - `model.rs`: a model's path and the names derived from it (listing, kind,
    backup names);
  - `texture.rs`: the rules for a texture's new path (prefix, `resource`
    directories, reset, built-in textures);
  - `mdl.rs`, `mdx.rs`: processing the two model formats;
  - `outcome.rs`, `process.rs`: per-file results and their gathering;
  - `laws.rs`: properties proved of the rules for all inputs;
  - `reapply.rs`: that rewriting a model a second time with the same options
    changes nothing, once what the first rewrite wrote reads back.
- `tests/`: executable tests of the library.
- `app/`: the desktop shell (Tauri commands, file access, backups).
