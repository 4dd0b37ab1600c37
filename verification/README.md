# bstack_raii

Typed, owned blocks in a file. A block starts with a header that names its type; its fields are
plain bytes, other blocks, counted references, weak references, or pointers to blocks of other
files. Releasing a block releases what it owns, and a release that a crash cuts off is completed
when the file is opened again.

The library under `src/` is verified with Verus. Every request to an allocator is an event in a
ghost record, and the contracts say which events a function adds, and what it returns for each
reply.

* `allocator`, `mem` - what is asked of an allocator, and one in memory.
* `wal` - the log: entries, the block they lie in, completion after a crash, locks, and the reuse
  of blocks that are about to be freed.
* `teardown`, `handle`, `refcount`, `owned`, `bulk` - releasing blocks and references.
* `layout`, `construct`, `embed`, `slot`, `strongs`, `fields`, `nested`, `tagged`, `duplicate`,
  `cast` - making, reading, changing, taking apart and copying blocks, and enums as blocks.
* `path`, `registry`, `foreign` - when two paths are one, the numbers of files, and pointers across
  files.
* `derive` - what the attribute macros decide: their arguments as they are written, kinds, shapes,
  names, numbers of variants, what is mixed into a tag, the plan of everything that is generated
  for a type, and the words for what is refused.

`app/` holds what surrounds the library: files, locks, and the templates of the macros.
