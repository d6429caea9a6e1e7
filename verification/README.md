# mdwright

A Markdown formatter's core, written in Verus: the scanning, escaping,
canonicalising and re-wrapping rules that a formatter applies to
CommonMark source, each stated as a contract and proved.

## Layout

- `src/` — the verified library.
  - `text`, `runs`, `escape` — byte and character helpers, and the escape
    policy for text that would otherwise be read as Markdown syntax.
  - `blocks`, `inline` — how block constructs (headings, lists, code
    blocks, tables) and inline ones (code spans, emphasis, links, HTML,
    footnotes, task markers) are recognised and emitted.
  - `math` — finding TeX math regions, their environments, and
    normalising and pretty-printing them.
  - `format` — the formatter's passes: document building, line endings,
    opt-in canonicalisation, emit safety, paragraph re-wrapping, and the
    check that a rewrite keeps the parse (`semantic`).
  - `config` — resolving a configuration schema into options;
    `config_discovery` — the upward walk that finds the configuration file.
  - `document` — rendering to HTML after canonicalising the source
    (line endings to LF, NUL to U+FFFD).
  - `discover`, `incremental`, `diagnostic` — which files count as
    Markdown, checkpoint tables for incremental re-parsing, and
    diagnostics.
- `tests/` — tests of the library on concrete inputs.
- `app/` — the command line: reads the configuration from disk (driving
  the discovery walk), and lists the Markdown files a run would cover.

Parsing and HTML rendering go through `pulldown-cmark` and display widths through
`unicode-width`, each behind a small wrapper whose contract says what the
library relies on.
