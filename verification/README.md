# peiosutils

The logic of a few Peios system utilities, written in Verus and proved
against its contracts.

- `src/part/` — GPT partition tables: GUIDs and their text, entry and header
  (de)serialisation with CRC checks, the protective MBR, free-space search,
  adding and removing partitions, the problems a table can have, the safety
  guards before a destructive write, and the text `part` prints.
- `src/reg/` — registry paths, value literals (`dword:`, `hex:`, `multi:` and
  the rest) with their round trips, and the listings `reg ls` and `reg set`
  print.
- `src/regman/` — the documentation format of `regman`: fragment files,
  anchor folding, key patterns, the on-disk index and its round trip, lint
  and format checks, and Markdown layout.
- `src/passwd.rs`, `src/revstrm.rs` — the decisions of the password-change
  exchange and of the revocation stream reader.
- `src/text.rs`, `src/bytes.rs` — the string and byte helpers the rest is
  stated over.

`app/` is the program around the library: argument parsing, devices and
files, the pager. It holds no rule of its own.

Proofs of the laws that span several functions stand beside the code they
speak of as public proof functions (for instance `lemma_gpt_round_trip`,
`lemma_guid_text_parses`, `lemma_index_round_trip`, `lemma_fence_offsets`).
