# langelic_epub

EPUB read and write over in-memory byte buffers, verified with Verus.

`reader::parse` reads an EPUB 2 or EPUB 3 file into a `types::Document`
(metadata, spine, assets, table of contents, cover); `writer::build` writes a
`Document` as an EPUB 3 file with a `toc.ncx` for EPUB 2 readers.

Layout:

- `src/` — the library. Every function is verified against its contract,
  except the small wrappers (`#[verifier::external_body]`) around the
  outside crates: zip (`zipio`), quick-xml (`xml`), epub-builder
  (`generator`) and uuid (`ident`), whose contracts state what those crates
  do.
  - `opf`: locating and reading the package document.
  - `toc`: the navigation document and the NCX.
  - `reader`: chapters, assets, cover and the whole `Document`.
  - `writer`: validation, generation and the post-processing of the
    generated package.
  - `text`, `paths`: character sequences, paths and hrefs.
- `tests/` — tests of the library, including a build-then-parse round trip.

What is proved of a round trip: `writer::build` returns the rewrite
(`writer::patched_archive`) of an archive generated from exactly the steps
`writer::doc_steps` lists, and every chapter stored under a plain path reads
back unchanged from the result (`writer::build`'s contract,
`writer::stored_files_survive_patch`). That `reader::parse` of the result
gives the document back also rests on the package document epub-builder
renders, which no contract describes; the test covers that part.
- `app/` — the Erlang NIF bindings (rustler): `parse/1` and `build/1`, the
  Elixir-side structs and the error encoding.
