# htmlp

Strict, self-contained prompt files with explicit token budgets, as a Verus
library with a small command-line program around it.

A `.htmlp` file has one `htmlp` root holding Markdown text, nested `section`
elements and `{{name}}` placeholders. Every declared limit (`max-tokens`,
`per-item`) needs a nonblank `reason` and a budget signature (`sig`). The
library parses the markup, signs budgets, checks a document against an
injected token counter, renders it with string bindings, and attributes model
requests by source.

## Layout

- `src/` — the verified library. Every executable function carries a
  `requires`/`ensures` contract over a mathematical model (spec functions,
  `Seq`, `Map`, views); the laws of the library are proof functions named
  `law_*`, beside the functions they speak of (`check_laws.rs` and
  `parse_laws.rs` hold those that span several).
  - `parser.rs`, `text.rs`, `limit.rs`, `locations.rs`, `xml.rs`: markup,
    entities, placeholders, limits and source positions.
  - `model.rs`: the document tree, bindings, reports, lookup and display.
  - `check.rs`: validation, budget measurement, `lint` and `render`.
  - `rendered.rs`: checked rendering with spans and section texts.
  - `signing.rs`: budget signatures, in memory and in source text.
  - `files.rs`: what one file's report holds and which files a scan visits.
  - `tokenizer.rs`: CL100K counting.
  - `runtime/`: attributed model requests, estimates and reported usage.
- `tests/` — tests run against the compiled library.
- `app/` — the `htmlp` command: file and directory I/O, JSON output and the
  watch loop.

Calls into `xmlparser`, `sha2` and `tiktoken-rs` go through small trusted
wrappers whose contracts are stated next to them. CL100K counting cannot
handle a run of whitespace longer than `MAX_WHITESPACE_RUN` characters, so
`lint`, `render` and `render_checked` require that every text they count
fits the counter; `Cl100k::can_lint`, `can_render` and `can_check` test it.
All modules are public, so clients can name the spec functions and laws
that the contracts use.
