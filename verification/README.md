# rockdown

The verified core of Rockdown, a Vim-style Markdown workspace: Markdown
projection and outline, documents and their saves, crash recovery, the file
explorer's staged operations and their commit, image assets, PDF export
rules, the embedded terminal's input and replies, settings and themes, and
the command line. Every function in `src/` is checked by Verus against its
`requires`/`ensures` contract; the laws the library keeps are public proof
functions named `law_*`.

## Layout

- `src/` — the library, one module per concern:
  `markdown` (source rows, rendered lines, tables, code highlighting),
  `outline` (headings, anchors, outline queries), `buffer` (lines, caret,
  search), `document` / `documents` (files, saves, open buffers),
  `recovery` (what a snapshot stores and restores, and when it may be
  written), `closing` (what a close request asks about), `explorer`
  (listing, staged renames/creations/deletions, the commit and its rollback),
  `image_assets`, `pdf`, `terminal`, `keyboard`, `text_input` (UTF-8 and
  UTF-16 offsets, input-method edits by grapheme cluster), `commands`
  (parsing and editing the command line), `picker` (the outline picker's
  query line and selection), `workspace` (open overlays, focused pane,
  layout switches, and how actions and keys are routed through them),
  `key_routing` (which overlay, pane or buffer a key press goes to),
  `viewport` (top rows that keep the cursor in view), `cli`, `config`,
  `markdown_edit`.
- `tests/` — tests of the library on concrete values.
- `app/` — the program around it: arguments, settings files, disk and
  process work, the pseudo-terminal, and Pandoc's JSON tree. The window
  layer (gpui) is not part of this crate.

Outside crates are called from `src/` only through small trusted wrappers,
each documented with what its contract claims: `pulldown-cmark` (the
Markdown parse that rendering and the outline read), `unicode-segmentation`
(grapheme clusters), `syntect` (code highlighting), `regex` (anchor slugs),
`serde_json` (JSON string quoting), `image` (format detection and
decoding checks) and `sha2`
(recovery directory names).
