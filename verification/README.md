# minix_fs

Minix file-system images held in memory, with every operation verified
by Verus against a specification of what it does to the image.

- `src/fs/minix.rs`: the Minix v3 format (super block, inodes,
  directory entries), path resolution, allocation, files, directories,
  deletion, the directory tree and formatting a new image.
- `src/fs/minix_manager.rs`: `MinixFs`, a formatted image with its
  block size, and the operations on it.
- `src/fs/laws.rs`: what a read gives back after a write, that created
  files and directories can be found and deleted ones cannot, and what
  path resolution depends on.
- `src/fs/undo.rs`: what allocating, making a directory and writing do,
  byte by byte, and that deleting a directory right after making it
  succeeds and gives the bitmaps and the parent's block back, on images
  with the layout that `mkdir_layout` describes and where neither step
  disturbs what finding the parent reads.
- `src/minixv3.rs`: an interface to the same format that reports
  failures as inode number 0 or an empty result.
- `src/minix.rs`: the Minix version 1 format with 1024-byte blocks.
- `src/layout.rs`, `src/path.rs`, `src/text.rs`: little-endian fields,
  slash-separated paths, decimal numbers and words.
- `src/nc.rs`, `src/file_transfer.rs`: the argument and request parsing
  and the replies of the tools in `app/`.

`app/` holds the tools themselves (a directory-tree demo, a TCP line
client, a file-transfer server and a DNS probe); `tests/` holds the tests.
