# alyze

Text analysis for full-text search, written in Verus: every function of the
library carries a contract that Verus proves.

## Layout

- `src/uax29/` — Unicode word and sentence segmentation (UAX #29) by a
  deterministic automaton over character properties; the properties come from
  ICU data through a few trusted lookups. Laws: segments partition the text,
  breakpoints in bytes. `word::rules` and `sentence::rules` state the UAX #29
  rules one by one over the chars' classes (WB1–WB3b, WB3c after
  letter-like chars, WB3d for adjacent spaces, WB4–WB13b, WB15/16 for a run of regional indicators, WB999 after
  letter-like chars; SB1–SB8, SB8a–SB11 after `!` or `?`, SB998 after
  letters) and prove each of the segmentation. `word::block` classifies 64 ASCII bytes at once into
  bit masks, each bit proved equal to its byte's Word_Break class; the
  tokenizer itself steps byte by byte and does not use it.
- `src/analyze/` — the analysis pipeline (word segmentation, length limit,
  lowercasing, stemming through `frostem`, stopword removal against a list
  the caller gives), its options, the Unicode 17 lowercase table and the
  stemming cache. ASCII folding and built-in per-language stopword lists are
  not part of the library. Laws: positions increase, a token's position is
  the index of its word-like span, byte ranges recover the raw text.
- `src/kuromoji/` — the Japanese tokenizer: loading a MeCab/IPADIC dictionary
  from its text files, and the Viterbi search over the lattice of dictionary
  and unknown words. `tokenize` is proved to return the boundaries of a
  cheapest path, and exactly the one the search picks (`Dictionary::viterbi`).
- `src/features/` — ranking features over analyzed texts: term positions,
  element completeness and similarity, the greedy ordered match, field term
  matches and the segment search of field matching, in integers.
- `src/consumer.rs` — handing breakpoints or tokens to a consumer one by one
  until it wants no more (`tokenize_with`, `Analyzer::analyze_inputs_with`).
- `src/corpus.rs` — chunking and byte budgets for corpus loading.
- `src/text.rs` — UTF-8 facts shared by the modules.
- `app/` — what is not verified: corpus download and Parquet reading,
  dictionary files on disk, and the floating-point scores built on the
  verified integer features.
- `tests/` — runtime tests of the library.
