# mdout

`mdout` reads Markdown from standard input and renders it for the terminal as it
arrives: finished blocks are written once, and the block still being typed is
redrawn in place until it is complete.

The library under `src/` is verified with Verus:

- `cli` — argument parsing (`--color`, `--width`, `--theme`, `--no-highlight`,
  `--help`, `--version`) and the color decision.
- `decode` — incremental UTF-8 decoding of the input, whatever the read sizes.
- `markdown`, `themes` — the calls into `pulldown-cmark` and `syntect` (theme
  choice; code blocks are highlighted when colors and highlighting are on).
- `width`, `text`, `style`, `wrap`, `table` — display widths (`unicode-width`),
  ANSI styling, word wrapping with prefixes, box-drawn tables.
- `render_spec`, `renderer` — what each Markdown event does to the output lines,
  and the renderer proved to follow it.
- `terminal`, `app` — the redraw plan (stable lines committed once, live lines
  redrawn) and the decisions of the read–render–draw loop.
- `wrap_laws`, `coalesce_laws`, `encode_laws`, `render_laws`, `plain_law` —
  properties that hold of every input: wrapped rows fit the width, keep the text,
  are single-spaced and greedy; grouping into spans round-trips; stripping the
  escape sequences of a line gives its text; rendering only appends lines, the
  final rendering has no live line, plain output carries no escape character.
  `terminal` also proves that piped frames write the document once, in order,
  and that redraws never leave the cursor hidden.

`app/` holds the program around the library: `main`, the stdin reader thread and
the loop that writes frames to standard output.
