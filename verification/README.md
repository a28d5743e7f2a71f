# diskmapper

A disk-space analyser in the style of WizTree: it scans a directory tree,
builds an arena of nodes whose sizes add up from the leaves, and shows it as a
squarified treemap with a sortable file list.

- `src/` is the verified library: the arena (`tree`), building the tree from
  scanned entries (`builder`), subtree sizes (`sizes`), what a scan records of
  an entry (`crawler`), the file list and its order (`listing`, `order`),
  navigation and display decisions (`navigate`), path helpers (`paths`) and
  the laws that relate them (`laws`).
- `app/` is the program around it: the parallel file-system walk, the
  floating-point treemap layout and the egui interface.
