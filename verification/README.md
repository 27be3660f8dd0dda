# gph

A compiler between a small Lisp-like flowchart language (gph) and Mermaid
flowchart text, with the experimental MML variant, a layered arrangement for
drawing flowcharts, and the preview tools that show diagrams in the Kitty
terminal. The library is written in Verus: each function states what it does
in `requires` / `ensures`, and Verus proves the code against it.

## Layout

- `src/` — the verified library.
  - `lexer`, `parser`, `pipeline`, `codegen`, `gph_printer`: gph to Mermaid.
  - `mermaid_parser`, `gph_readback`, `readback`, `reparse`: Mermaid back to
    gph, and the round-trip laws (compiling what was decompiled gives the same
    Mermaid).
  - `mml/`: the MML grammar, its Mermaid reader and writer, and its round trip.
  - `layout`, `crossings`, `arrange`: breaking cycles by depth-first search,
    longest-path layers, dummy nodes on long edges, barycentric ordering.
  - `render`, `svg`, `kitty`, `preview_ui`, `preview`, `lsp`, `tui`, `text`:
    export formats and ids, the Kitty graphics protocol, the decisions of the
    preview viewer, the LSP document versions, and editor line endings.
- `app/` — the `gph` command: argument parsing, files, terminals, sockets,
  the LSP server, the merman and mermaid-rs renderers' raster paths and the
  floating-point coordinates of the built-in drawing.
- `tests/` — tests of the library through its public items.

Calls into outside crates that stand in `src/` go through small trusted
wrappers whose doc comments say what is assumed of them.
