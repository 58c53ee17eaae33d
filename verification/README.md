# elix

A small file transfer utility for the local network: `elix send <file>` prints a
five-character code, `elix take <code>` on another machine finds the sender, proves it
knows the code and receives the file in 256 KiB chunks, each confirmed by a CRC-32 reply.

- `src/` is the verified library (Verus): the padded code and file-name frames, the
  little-endian counters, the chunk frames and checksum replies, the code generator and
  the ordering of received fragments, with their contracts and the laws that tie sender
  and receiver together.
- `app/` is the program around it: argument handling, sockets, peer discovery, threads
  and tasks, progress bars and file I/O.
- `tests/` runs the library on concrete values.
