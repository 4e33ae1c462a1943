# libviprs-storage

The storage family of a tile-pyramid benchmark: one PMTiles archive against a
tree of loose tiles, and what a run has to prove before its numbers are kept.

- `src/` is the library, verified with Verus. It reads and canonicalises JSON
  without building a float, derives the four digests of a document and the id
  of its run, decides whether a document may be filed, plans cells, walks a
  sweep, folds what children measured into rows, attests artefacts from what was
  observed of them, and orders releases. What holds across its functions is
  stated as proof functions whose names start with `law_`.
- `app/` is what the library cannot do: the three runners (`storage`,
  `storage-aggregate`, `version_matrix`), files, processes, clocks and floating
  point.
- `tests/` runs the library, with the outside crates it calls.

Numbers that are not whole are carried through the library as the bits of 64-bit
floats. The library places and counts them; the runners compute them.
