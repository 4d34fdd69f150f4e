# rue_core

A Vue 3-like reactive UI framework for Rust/WebAssembly, with its core
logic verified by Verus.

## Layout

- `src/` — the verified library.
  - `node/` — virtual DOM nodes and the builder (`mod.rs`), mounting
    (`mount.rs`), patching (`patch.rs`), children reconciliation with the
    longest increasing subsequence (`children.rs`), the guarantees of
    listener patching (`listeners.rs`) and of re-rendering an unchanged view
    (`rerender.rs`). Mounting and patching do not touch
    the DOM: they plan a list of `DomOp`s over node identifiers, and their
    contracts state that list exactly. `dom.rs` models
    what those operations do to each node's list of children and proves
    that mounting, removing, reconciling children (keyed or by position)
    and patching a whole tree (or a fragment of trees) leave the DOM showing
    the new tree, for trees of elements, texts, dynamic nodes and empty
    placeholders in which no two children of an element carry the same key.
  - `reactive/` — dependency tracking (`context.rs`), signals, computed
    values and effects. The tracking context records which effect read which
    signal; a write reports the effects to re-run.
  - `template/` — the `html!` template language: tokens, the parser's
    decisions about them (`check.rs`), the grammar (`parse.rs`) and the
    generated Rust code (`codegen.rs`).
  - `app.rs` — the application state: its mount point and the last tree.
- `app/` — the browser side: the DOM host that applies the planned
  operations with `web-sys`, the per-thread reactive runtime that runs effect
  closures, the `App` and `Component` lifecycle, and the macro entry points
  that convert `proc_macro2` token streams.
- `tests/` — tests of the library.
