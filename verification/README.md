# mermaid_term

Renders Mermaid diagrams (flowcharts, sequence diagrams, class diagrams) as
coloured Unicode text in the terminal, from a `.mmd` file, from stdin, or from
the ```` ```mermaid ```` fences of a Markdown document; `-i` opens an
interactive viewer that pans with `hjkl` and reloads the file when it changes.

The library under `src/` is verified with Verus: every public function states
what it returns as a function of its input, over mathematical models of the
diagram types.

- `text` — the string operations the rest relies on (`trim`, `lines`, `split`,
  `find`, `join`, …), each with its model over `Seq<char>`.
- `color` — ANSI colour sequences and the reading of colour words.
- `parser` — Mermaid text to diagram values; `spec_parse` is the model.
- `renderer` — diagram values to coloured text; `diagram_text` is the model.
- `markdown` — finding mermaid fences and replacing them by renderings.
- `viewer` — rendering a text, and the interactive viewer's state and keys.
- `consistency` — what every parsed diagram satisfies (unique names, every
  reference declared).

`app/` holds the program around the library: argument parsing, file and
terminal I/O, the file watcher and the drawing loop.
