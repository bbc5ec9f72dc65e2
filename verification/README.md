# HaruhiCrypt, verified

A file cipher built on a superpermutation of eight symbols, written in Verus.

- `src/superperm.rs`: the permutation generator, the merge that builds a
  superpermutation by longest overlaps, and the table of distinct
  permutations read from its eight-symbol windows.
- `src/superperm_laws.rs`: proofs that the superpermutation holds every
  permutation and that the eight-symbol table holds all `8!` of them, once
  each.
- `src/superperm_length.rs`: the proof that the merge is `n * n! - (n-1)! + 1`
  symbols long for `n >= 3` (317,521 for eight symbols).
- `src/cipher.rs`: `HaruhiCipher`, with seed `SHA-256(key)`; block `i` is
  rearranged by the table row at `SHA-256(seed || i) mod 8!`, and encrypting
  and decrypting a block undo each other.
- `src/format.rs`: the file layout
  `[1 ext length][ext][16 IV][ciphertext][32 HMAC]` and its parser.
- `src/envelope.rs`: `encrypt_data` / `decrypt_data` (padding, blocks, tag), with
  the proof that opening what was sealed gives the data and extension back.
- `src/display.rs`: text shown by the window (grouped numbers, keys, the log,
  output file names).
- `src/primitives.rs`: the trusted calls into sha2, hmac, rand and std.
- `app/`: the egui window, file I/O, worker threads and music.
