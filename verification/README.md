# hashmyfiles

A file-integrity tool: it hashes the files of a directory tree (SHA-256,
SHA-512 or BLAKE3) into a text database, and later compares the database
with the files on disk, reporting each file as Unchanged, Modified, New or
Missing.

Layout:

- `src/` is the library, verified with Verus. Its modules:
  - `text`: trimming, prefixes, splitting and decimal text, with exact
    specifications over `Seq<char>`.
  - `hasher`: algorithm names and hex digests (`sha2`, `blake3`, `hex`).
  - `paths`: path components and the order of paths.
  - `clock`, `csv_out`: time stamps (`chrono`) and CSV records (`csv`).
  - `database`: the database, its text format (writing and reading), its
    CSV export and the lookup of hashes by path.
  - `sort`, `index`: a merge sort and a sorted index of path keys.
  - `compare`: the comparison of a database with the files found on disk,
    and its reports.
  - `scanner`: which files a scan takes and what a finished scan produces.
  - `presentation`: filtering, shortening and summarising what the window
    shows, and reading the settings typed into it.
- `app/` is the GTK program around the library: windows and dialogs,
  walking directories, reading files, writing exports.
- `tests/` exercises the library on concrete values.
