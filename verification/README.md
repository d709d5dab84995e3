# rustree

A disk space analyser for NTFS volumes: it reads the master file table
directly, builds the directory tree with the size of every directory and shows
where the space goes, as a sorted list and as a treemap.

`src/` is the library, verified with Verus:

- `mft/parser` parses raw table records (fixups, attributes, names, data runs);
- `mft/reader` reads the boot sector and record 0 of the table;
- `mft/scan` walks the table's fragments block by block and keeps the entries;
- `mft/table` states what a whole walk finds: the entries of the table's records
  in order;
- `tree/` builds, sorts and edits the tree (`builder`, `node`, `sort`), formats
  sizes (`size_text`) and orders the rows of the tree view (`listing`);
- `treemap` holds the treemap picture, its rectangles and the colour of each
  file extension;
- `app_state` holds the state of the interactive view.

`app/` is the command line program around it: argument handling, raw volume
access on Windows, the scan loop, and the floating-point parts of the treemap
(layout, shading, colours).
