# tree_doc

A tree document describes the shape of nested data as an indented list:

```
- root { type: "struct" }
  - servers { type: "map", name: "servers" }
    - server.a { type: "struct" }
      - host { name: "host" }
```

Each line is `- text`, optionally followed by a metadata block
`{ type: "struct" | "array" | "map", name: "..." }`. Lines with a block form a
tree by indentation; lines without one are free text. The tree can then be
checked against a description of a Rust type.

## Layout

- `src/` — the library, verified with Verus.
  - `text.rs`, `scan.rs` — UTF-8 bytes, Unicode white space, scanning.
  - `part.rs` — one line: `Span`, `Input`, `parse_line` and the parsers of
    its metadata block, each specified by a spec function over bytes.
  - `tree_doc.rs` — the whole document: `parse_raw` (the tree of described
    lines), `parse` (the typed tree), `validate` (the check against a type),
    and the laws they obey.
  - `shape.rs` — the description of a type that `validate` reads.
- `app/` — `validate::<T>()` for any `T: facet::Facet`, which reads the
  type's shape into the library's description.
- `tests/` — tests of the library.
