# heshun

A Chinese input-method decoding core — shape codes (Zhengma), full pinyin
and double pinyin (Ziranma) — whose logic is verified with Verus.

- `src/` — the verified library: the binary dictionary formats (`dict`,
  `pinyin`, `zrm`, with `codec`), spelling algebra (`algebra`), spelling
  projection and the syllable and word graphs (`projection`,
  `segmentation`, `word_graph`), sentence composition (`composer`), the
  session engine (`engine`), the event-driven runtime with segments,
  paging and commit history (`runtime`, `history`), the user dictionary
  (`user_dict`), punctuation and processors, reverse lookup, translations,
  scheme configuration (`schema`), and reading dictionary sources
  (`source`).
- `tests/` — behaviour tests of the library.
- `app/` — what runs around it: scheme and user-dictionary files, the C
  interface, floating-point sentence ranking, JSON copies of the runtime
  types, and the `build`/`demo`/`bench` tools.
