# zwf

A reader, validator and timeline evaluator for the ZWF1 container format
(a single-file binary of stage, characters, movie-clip timelines and
assets), verified with Verus.

## Layout

- `src/` — the verified library.
  - `header`, `chunk`, `reader`: the 32-byte file header, the 16-byte chunk
    headers, the chunk walk, the parsed archive and the writer. Every parse
    function is specified by a spec function on the input bytes; the writer
    is proved to produce files that parse back to what was written.
  - `stage`, `chrs`, `mclip`, `shap`, `bmap`, `vids`: the chunk bodies, each
    with a parser, an encoder and a round-trip lemma.
  - `crc32`: CRC-32 (IEEE 802.3, reflected), proved against its bitwise
    definition.
  - `registry`, `timeline`, `abi`: handle slots for open files, frame
    evaluation into render lists, and the answer (value or error code) of
    every host call.
  - `le`: little-endian reading and writing with round-trip lemmas.
- `app/` — what a WebAssembly host links: the `extern "C"` calls with raw
  pointers, the per-thread registry, the `f32` conversions and the error
  messages.
- `tests/` — the format and runtime tests.

Every `f32` of the format is carried in the library as its IEEE-754 bit
pattern (`u32`); only `app/` turns those bits into numbers.

DEFLATE payloads are decompressed by `miniz_oxide`, behind one trusted
wrapper whose result is named by an uninterpreted spec function.
