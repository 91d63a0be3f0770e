# raw_map

A raw road network: roads and intersections keyed by OpenStreetMap ids, the edits that an editor
makes to them, and fixes that record such edits. The library under `src/` is verified with Verus.

* `order`, `sorted_map`, `sorted_set`, `tags`, `value`, `text`, `seqs`: ordered collections, tags
  and decimal text.
* `ids`, `geometry`, `restriction`, `osm`, `raw`: what a map holds.
* `query`, `edit`, `merge`, `preview`: asking a map, deleting and moving, merging short roads away.
* `fixes`, `layers`: applying fixes and recording them, for the master map and for others.
* `laws`, `merge_laws`, `fixes_laws`: what holds across these operations.

Points are integers in ten-thousandths of a metre. Whatever needs floating point, files or the
console is in `app/`, which asks the program around it for geometry, storage and lane layout.
