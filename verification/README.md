# forgeql_storage

The columnar storage engine of ForgeQL, a source-code index: a library whose logic is verified with
Verus, and the I/O around it.

- `src/` is the library. It opens the bytes of an index file (`overlay`), checks the
  nodes of its name indexes before they are walked (`index_nodes`), reads segments (`segment`),
  narrows a query by postings and ranges, chooses and delivers a page (`columnar_storage`), keeps a
  session's edits (`dirty_overlay`, `delta_file`), serves commits as a master plus changes
  (`chain_manifest`, `chain_derive`), and plans the removal of old generations (`gc`). Its laws stand
  beside what they speak of as `pub proof fn lemma_…`: among them that a scan looks at every row that
  matches (`columnar_storage/cover.rs`), that a page is the same by either route
  (`columnar_storage/pages.rs`), and that a derived chain serves its target (`chain_derive.rs`).
- `app/` reads and writes files, maps memory, takes locks, reads settings and serialises answers. It
  performs what the library decides and hands the outcome back. Segment files, languages, git and the
  index builder come through one trait (`app/surroundings.rs`).
- `tests/` runs the library against the real `roaring`, `fst`, `regex`, `sha1`, `sha2` and `bincode`.

What is believed rather than proved is declared next to its use, marked `external_body`,
`assume_specification` or `uninterp`, with a comment that says what is claimed of the outside crate.
