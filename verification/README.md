# fio-ext4

Userspace file I/O into an ext2, ext3 or ext4 filesystem: read and write files
with no kernel, no mount and no loop device.

`src/` is the library. It decides and computes; it touches no device. Its
functions have contracts that Verus proves. Two are taken on trust, both in
`text`: what `String::push` does, and what `String::from_utf8_lossy` gives back,
of which malformed bytes get a name and nothing more. Streams are traits, for
callers to implement: what is proved of an archive read or written through one
holds as far as it keeps to the trait's contracts.

- `allocator`, `bitmap`: blocks and inodes, with the counters that go with them.
- `blockmap`: extent trees and indirect blocks.
- `dir`, `index`: directory blocks, and the hash index over them.
- `volume`: inodes, contents, names, links, attributes, and what each operation
  changes, as a list of changes to make in order.
- `tar`: archives, read and written as a stream.
- `archive`: how an archive is compressed and where it comes from.

What holds of several functions together stands in the files whose names end in
`laws`, in `volume/tree.rs`, and beside the functions it speaks of, as proof
functions named `law_...`.

`app/` is the program: it reads and writes the device through `mkfs_ext4`, hands
what it read to the library, and makes the changes the library asks for.
