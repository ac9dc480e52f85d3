# DiskForge

A disk-space analyser for NTFS volumes. It reads the master file table (or walks the folders
where it cannot), shows what takes the space, finds names and duplicate files, and moves files
and folders to another drive behind a symbolic link.

## Layout

- `src/`: the library. Every function carries a contract that Verus proves.
  - Trees: `model` (nodes, paths, removal, replacement), `tree_laws`, `ordering`, `sorting`,
    `categorize`, `file_groups`, `grouping`, `owners`.
  - Reading a volume: `bytes`, `mft_load` (where the table lies, which pieces to read),
    `mft_scan` (one record), `mft_tree` (the tree), `mft_space`, `dir_enum` (a folder's raw entries),
    `scan`, `scan_model`, `scan_walk` (the walk over folders), `fs_attrs`.
  - The index of names: `pools`, `index_model`, `search_index`, `index_queries`,
    `index_rebuild`, `index_laws`, `index_numbering`, `matcher`, `find`.
  - Duplicates: `digest`, `dedup`, `dedup_laws`, `dup_tree`, `search_progress`.
  - Changing the disk: `file_ops`, `migrate`, `folder_walk`, `lock_check`, `layered_probe`, `lock_dialog`.
    Each is a step function: it is given what is known so far and says what to do next.
  - The window's state and texts: `session` and its parts, `tabs`, `pane`, `screen`,
    `tree_list`, `compact_tree`, `list_view`, `list_search`, `export`, `format`, `calendar`,
    `filetime_laws`, `theme`, `ui`, `about`, `applog`, `crash_logger`, `text`.
- `app/`: the program. It draws, reads and writes, runs the threads, and performs the steps that
  the library asks for.
- `tests/`: the library on concrete values.

Functions named `law_…` are theorems about several operations at once: that a tree rebuilt from
its index is the tree, that a file's space counts once however many links it has, that a source
is touched only after its copy was compared, and the like.

What the library takes on trust is marked `external_body` or `assume_specification`, each with a
comment that says what is claimed of the outside function.
