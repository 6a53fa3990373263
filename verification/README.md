# nota

A contextual note taker: every note is a Markdown file with YAML
frontmatter recording when and where it was written (directory, git
repository, branch, commit, staged and changed files). Notes can be
listed, filtered, searched (exactly or fuzzily), tagged, grouped into an
activity log, counted, and browsed in a terminal UI.

## Layout

- `src/` is the library, written in Verus. Each public function states its
  result in `ensures` over spec functions, and the laws that relate several
  functions are public proof functions named `law_*`.
  - `text`: character-level text operations (trimming, lines, words,
    searching, UTF-8 byte lengths).
  - `order`: the order of strings and a sort proved to produce it.
  - `time`: date-times read through chrono, and their rendering.
  - `note`: the note file format (split and compose, with a round-trip
    law), identifiers, paths.
  - `context`: turning git facts into the recorded context.
  - `search`: filters, search, fuzzy search, recency order, the activity
    log and the stats.
  - `display`: what the commands print, as styled spans.
  - `tags`: adding and removing tags.
  - `tui`: the browser's state, its reaction to each key, and what its
    panes show.
  - `commands`: the decisions of the command-line commands.
- `app/` is the program around the library: argument parsing, file and
  terminal I/O, git discovery, serde for the frontmatter, colors and the
  ratatui drawing.
- `tests/` runs the library on concrete values.

The activity log and the stats tally notes per repository in a `Vec` of
(repository, count, latest time) entries rather than a `HashMap` keyed by
the repository name: the `Vec` has a plain specification that the proofs
work with and a fixed order of iteration. No `HashMap` form of them was
attempted.

Calls into chrono, uuid, serde_yaml and std that the library makes are
behind small trusted wrappers whose doc comments say what their contracts
claim.
