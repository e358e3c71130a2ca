# disk_analyzer

A disk space analyzer: it walks a directory tree, ranks the largest files
and directories, breaks the space down by file type, and shows it all in a
desktop dashboard from which files can be moved to the recycle bin.

The library in `src/` is verified with Verus. It holds the logic:

- `scan` — the accumulator each scanning worker records files into, the
  merge of two workers' accumulators, and the finishing step that turns them
  into results (largest files, sizes per extension, sizes per directory
  carried up the walk from each file's directory towards the scanned root,
  largest directories). Where paths are written with `/` from plain
  components, every platform reads them alike, and the library proves that
  each file's directory is recorded and that the root collects all of them;
  other paths are split by the platform's own rules;
- `rank`, `tally` — "k largest" selection and per-key size totals, the data
  structures behind the scan;
- `links` — counting a file once however many hard links lead to it;
- `format`, `calendar`, `text` — byte sizes, grouped numbers and dates as
  the dashboard writes them;
- `dashboard`, `display`, `table` — the dashboard's state and decisions
  (notifications, scan requests, sorting and searching the table, the
  checked deletion) and what it derives from results for display;
- `models` — the result records and the live progress counters;
- `paths` — the few string and path operations of `std` the logic relies on.

`app/` is the desktop program around it: the egui window, the parallel
directory walk (jwalk and rayon), the file dialog, the recycle bin and the
other calls into the operating system.
