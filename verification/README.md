# git_rs

A git repository engine whose formats and decisions are proved correct with
Verus.

The library reads and writes the files of a repository: loose objects, packs
and their indexes, the multi-pack index, the staging index, packed references,
notes, mailmaps and linked worktrees. It also holds the decisions of the
commands that work on them, such as merging trees, listing files, naming
commits, verifying objects and planning a fetch. Every public function states
what it returns and what becomes of the files.

## Layout

- `src/` is the verified library. `fs` holds the storage that operations work
  on, `storage` the object database, and one module stands for each command.
  Laws that relate several functions are public proof functions at the end of
  their modules; those that relate several modules stand in `merge_laws`,
  `notes_laws`, `tree_laws` and `worktree_laws`.
- `tests/` runs the library on concrete repositories.
- `app/` puts the library on a disk: a file system below a host directory,
  sessions that hold locks, load a repository, run an operation and store what
  changed, and what carries out the plans that operations return.

Compression comes from `miniz_oxide`, behind the two functions of `zlib`.
