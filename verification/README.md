# myoso

Step-by-step flashcards for the terminal. An answer is a tree of retrieval
steps: later steps unlock once the earlier ones are recalled, a forgotten
step re-locks only what lies beneath it, and every path from the question
to a leaf comes back for review on its own.

## Layout

- `src/` is the library, verified with Verus: the card model (`models`),
  step trees (`tree`), the editor's drafts and what saving them writes
  (`drafts`, `editor`), the rating rules and what is due (`review`), a
  running review session (`session`), the screens and their keys
  (`screens`, `keys`), cloze blanks (`cloze`), the deck list (`decks`), the
  outline import format (`outline`), Markdown rendering (`markdown`) and
  the syntax highlighter code blocks are drawn with (`highlight`).
  Calls into `pulldown-cmark`, `syntect` and `serde_json` sit behind small
  trusted wrappers whose contracts say what the library relies on.
- `app/` is the program around it: the command line, the SQLite store, the
  memory model that turns a rating into the next interval, JSON export and
  import, and the terminal interface.
- `tests/` exercises the library with the outside crates linked.
