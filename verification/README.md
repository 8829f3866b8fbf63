# morpho

A verified core for a small Hungarian reading server.

- `src/trie.rs`: a byte-prefix trie over tokens. Its model is the set of
  byte strings spelled from the root and the set of those that end a token;
  insertion, the walk along a prefix, the bytes that may follow a prefix and
  the tokens found below it are specified over that model.
- `src/metadata.rs`: the property section of an HFST header, NUL-separated
  UTF-8 name/value strings.
- `src/hfstol/`: the header (magic, properties, fixed fields) and the alphabet
  of an HFST optimized-lookup (`.hfstol`) file, read from bytes.
- `src/morphology/header.rs`: the magic and the property section, as the
  morphology module reads them.
- `src/handlers/vowel_harmony.rs`: the harmony class of a verb infinitive.
- `app/`: the HTTP server (axum, tokio), file reading and printing.

All of `src/` is checked by Verus; `tests/` exercise it on concrete inputs.
