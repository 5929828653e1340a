# static_blog

A convention-based static blog generator whose logic is verified with Verus.

- `content/index.md` becomes `/`, `content/<name>.md` becomes `/<name>/`,
  `content/<section>/_index.md` becomes `/<section>/`, and the other markdown
  files of a section become its articles at `/<section>/<slug>/`.
- Markdown files may open with a `---` fenced header (`title`, `description`,
  `summary`, `date`, `order`).

## Layout

- `src/text.rs` — character-level string operations (trim, lines, search, join).
- `src/escape.rs` — HTML escaping.
- `src/inline.rs`, `src/markdown.rs` — inline spans and block markdown.
- `src/frontmatter.rs` — header parsing.
- `src/rank.rs`, `src/model.rs` — listing order, stable sorting, the site's data.
- `src/pages.rs` — pages, articles and sections built from content files.
- `src/render.rs` — HTML documents.
- `src/site.rs` — options, assembling the site, routes, the article listing text.
- `app/main.rs` — the command-line program: reads `content/`, writes the site.
- `tests/` — tests on concrete inputs.

The program takes `--output <dir>` (default `dist`).
