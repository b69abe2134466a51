# Qianyan IME engine

The engine of a Chinese input method, verified with Verus: letters go in, words come out.

- `src/` is the library. Every function states what it returns and how it leaves what it was
  given, and Verus proves it.
  - Text and collections: `text`, `strmap`, `tables`, `order`, `json`.
  - Dictionaries: `source`, `compiler`, `building`, `index`, `trie`.
  - Syllables and sentences: `segmentation`, `fuzzy`, `similarity`, `smart_aux`, `compose`,
    `sentences`.
  - Candidates: `candidate`, `translators`, `pipeline`, `pipelines`, `scheme`, `chinese`, `bihua`,
    `engine`, `lookup`, `discovery`.
  - Settings and memory: `config`, `defaults`, `pages`, `config_manager`, `memory`, `userdict`,
    `learning`.
  - Keys: `keys`, `action`, `session`, `session_state`, `context`, `commands`, `compositor`,
    `handlers`, `composing`, `editing`, `hotkeys`, `pressing`, `transition`, `processor`, `actor`.
- `app/` is what stands around it: files, threads, sounds, and scores that are fractions.
- `tests/` runs the library.

Weights and other fractions are whole thousandths in the library. Time is a number of milliseconds
that callers hand in. What is to be read from or written to a disk is asked for as data: the engine
says that its dictionaries are stale, and the settings keep a list of what is to be saved. The
characters of the keys, the encoding of strokes typed as digits, and the schemes beside the Chinese
one are handed in too.

The library rests on what it says of the `fst` crate in `src/index.rs`, of the `serde_json` crate in
`src/json.rs`, and of a few functions of the standard library in `src/text.rs` and `src/trie.rs`.
Nothing else is taken on trust.
