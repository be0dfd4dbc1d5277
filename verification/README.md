# bundlermd

Bundle multiple text files into a single Markdown document, with a table of
contents, fenced file sections, optional line ranges and GitHub-style anchors.

The library in `src/` is written in Verus and verified:

- `bundle` — newline normalization, fence sizing, line ranges and the bundle
  format; `line_numbers` proves that the printed line ranges point at each
  section's heading and closing fence.
- `anchors` — GitHub heading anchors with numbered repeats; no anchor is
  handed out twice.
- `paths`, `smartpath`, `project` — a lexical model of `/`-separated paths,
  path presentation (Smart, Absolute, Fixed), and how workarea paths are
  stored in and resolved from a `.bmd` project file; `path_order` sorts
  folder listings in std's component-wise path order.
- `reading`, `lang`, `markdown` — text/binary classification, code-fence
  language tags and link removal, over `encoding_rs_io`, `memchr`,
  `linguist` and `pulldown-cmark`. With the language-tag setting on, a
  fence carries the tag of the file's detected language (```` ```rust ````),
  except for plain text and Markdown, whose fences stay bare.
- `state`, `store` — the workarea of each window (screening, reordering,
  saving, opening, best-effort export) and the global settings and Recents.

`app/` holds the file system access, JSON persistence and the command
surface around the library; `tests/` exercises the library on concrete
inputs.
