# oidw

The core of Open Images Workbench, a tool that downloads Open Images
classes with YOLO-format labels, indexes the local dataset and browses it.
The library is written in Verus: each public function carries a contract
that the verifier proves.

- `src/` — the verified library
  - `text`, `order`, `numbers`, `paths`: texts, orders, number texts, paths
  - `models`: splits, configuration, annotation rows, index entries, jobs
  - `csv_meta`: the class list and the annotation CSV files
  - `download`: selecting the boxes of a class from an annotation CSV
  - `plan`: the tasks of a download job, the images it fetches, label groups
  - `index`: image files, YOLO label files and the order of the index
  - `state`, `display`: the application state and what the screens show
  - `clock`: the clocks
- `app/` — the command-line program around it: HTTP downloads, files, the
  floating-point label lines
- `tests/` — tests of the library
