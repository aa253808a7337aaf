# jeff

Relinking support for split Xbox 360 executables, verified with Verus.

- `coff_symbols` gives every definition of an image an identity of its own: a name that is defined
  at several addresses keeps its spelling at the lowest, and gets `_XXXXXXXX` at the others. Targets
  that other units refer to, and the save and restore entries of the C runtime, become external.
- `function_sizes` adds auxiliary size records to an object file, so that functions are not cut off
  at external labels within them.
- `relink` turns the objects of an image into address-ordered link contributions, with padding for
  the gaps between them. Gaps keep the original bytes of the image and the boundary of its zero fill.

## Layout

- `src/obj.rs` holds images, sections, symbols, relocations and splits, with their models.
- `src/naming.rs`, `src/duplicates.rs` and `src/coff_symbols.rs` are the identity pass.
- `src/tokens.rs`, `src/zero_fill.rs`, `src/contribution.rs` and `src/gaps.rs` are the steps of
  `src/relink.rs`: original import tokens, the boundary of initialized data, names and resolved
  branches, and padding.
- `src/coff_table.rs` and `src/function_sizes.rs` read and rewrite symbol tables.
- `src/laws/` states what holds of the passes as a whole.
- `app/` adds logging and `anyhow` errors.

Reading the symbols of an object file is left to the `object` crate. What it reads is trusted to
depend on the bytes of the file alone. Its error type is carried through unread.
