# kmpeek

The verified core of a 3D editor for Mario Kart Wii KMP course files, written
in Verus. Every function under `src/` carries a contract that Verus proves.

## Layout

- `src/layout.rs`: the byte layout of a KMP file (header, section table,
  section extents) and field-only patching of the source bytes.
- `src/json.rs`, `src/patch.rs`: the three-way merge of editor values onto the
  source values, section by section.
- `src/field_save.rs`: the whole field-only save of a document: the
  structural refusals, the placement of grouped points on their source rows,
  the merge, and the transfer of changed bytes; the unsaved-changes check
  compares what this save would write with the bytes on disk.
- `src/graph.rs`: path graphs (enemy, item, checkpoint and route paths): link
  validity, linking and unlinking, import linking, and the component hooks.
- `src/traverse.rs`: the decomposition of a path graph into groups.
- `src/rebuild.rs`, `src/export.rs`: planning and checking a full rebuild of
  the path sections and the references between sections.
- `src/grouping.rs`: the planned grouping of a path section is unique, so
  planning the same points twice gives the same groups.
- `src/ordering.rs`, `src/document.rs`, `src/snapshot.rs`: editor ordering,
  the structural signature of a loaded document, source identities, save
  bookkeeping and the placement of exported records.
- `src/routes.rs`, `src/edit.rs`, `src/path_links.rs`: route membership,
  checkpoint sides, interactive link editing, and the reconciliation of drawn
  links.
- `src/records.rs`: raw encodings of record settings.
- `tests/`: tests on concrete values.
- `app/`: the file-system and serialization glue around the library.

The binary KMP codec (parsing a file into records and packing records into
bytes) and the editor's entity world are not part of this library: callers
hand the library the packed bytes and record values, and an encoder for the
merged values.
