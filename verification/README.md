# Caret walking and editing for rich-text documents, verified with Verus

A rich-text document is a tree of groups (paragraphs, headings, list items,
horizontal rules, carets — each named by its `tag` attribute) and runs of
characters. This library walks such documents with caret-aware cursors and
computes the editing operations (insert a character, delete one, split a
block, retag a block, move a caret) that a client's keystrokes produce.

Every position in a document is modelled as an index into the document's
token stream (`Open` at each group start, `Char` for each character, `Close`
at each group end); the contracts of all functions are stated over that
stream and proved by Verus.

Layout of `src/`:

- `doc.rs` — attributes, document elements, the token stream and its nesting depth
- `tokens.rs` — positions in a token stream: span ends and starts, units, runs
- `stepper.rs` — `DocStepper`, a cursor over a document
- `schema.rs` — the rich-text schema: the kind of each tag
- `walkers.rs` — caret-counting steppers and the `Walker` that moves between carets, characters and blocks
- `writer.rs` — deletion and insertion spans, and the writers that build operations
- `cursor.rs` — cursor spans and their stepper
- `actions.rs` — the editing actions at a client's caret
- `validate.rs` — checking a document against the schema

`tests/` holds executable tests of the library.
