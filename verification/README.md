# cladst

DST (Direct Stream Transfer) encoder and decoder for DSD audio, verified with Verus.

The library under `src/` holds the codec, the container formats and the decisions of the
pipelines. Verus proves the contracts of its functions; only the two small wrappers in
`src/format/text.rs`, which call the standard library, are believed, and what
`DstFrameReader` says of a reader is up to the reader. The program under `app/`
reads and writes files, parses the command line, runs encoding threads and computes filter
coefficients in floating point.

- `src/codec` — bit streams, Rice codes, the arithmetic coder, prediction and probability
  tables, whole frames. `lossless.rs` proves that decoding gives back what was encoded.
- `src/format` — DSF and DSDIFF files: headers, chunks, CRC, streaming readers and writers.
  Readers say which part of a file they need next and go on with what was read. Writers hand
  out the bytes to append, and at the end those to fill in.
- `src/encode.rs`, `src/decode.rs` — encoding, decoding and testing runs, frame by frame.
  `law_encoded_file_decodes` states that an encoded file opens again and its frames decode,
  with the right CRC, to the channels that were encoded.
- `src/session.rs` — what is done with an input, and where the output goes.

Inputs on which nothing sensible can be done (a size that cannot be counted, a frame that
ends before its tables) are told apart in the results: `Stuck`, or `None` from the functions
whose names start with `try_`.
