# deepcut

A reader of the NTFS master file table ($MFT), verified with Verus.

- `src/` is the library: little-endian field readers (`utils`), the record
  and attribute structures (`mft`), the record scanner with the update
  sequence check (`mft_parser`), and the directory tree built from the
  entries (`tree`). Every function carries a contract over byte sequences.
- `app/` is the command-line program: it parses the arguments, reads the
  file, and hands its bytes to the library.
- `tests/` runs the library on hand-built records.
