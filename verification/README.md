# ctx

A tool that compares the contexts of commonly confused English words or
phrases ("their/there/they're", "affect/effect") with data from the Google
Ngram Viewer, so that grammar-linter authors can see which neighbouring
words and parts of speech tell the alternatives apart.

## Layout

- `src/` — the library, verified with Verus:
  - `cli.rs`: reading the command line into a configuration (families,
    hyphen and apostrophe spacing, start year, flags);
  - `ngram.rs`: the query sent to the Ngram Viewer and the reading of its
    answer into rows (side, alternative, context word);
  - `pos.rs`, `lexicon.rs`: parts of speech and lookups in Harper's curated
    dictionary;
  - `tree.rs`, `table.rs`: the family → alternative → side → context → parts
    of speech tree, and how rows fill it;
  - `compare.rs`: the side-by-side comparison of two or three families;
  - `text.rs`: string helpers shared by the above.
- `tests/` — tests of the library.
- `app/` — the program: argument reading, the HTTP request, JSON decoding and
  the coloured output.

## Design notes

The maps of the tree (`ContextSet`, `SideMap`, `AlternativeMap`,
`FamilyTree`) keep their entries in a `Vec`, with the invariant that no key
occurs twice, and give a `Map` view. Their keys are strings, and vstd's
specification of `HashMap`/`HashSet` proves little about string keys, so the
entries are held where every operation can be proved against the view.
