# lexrank_ndarray

LexRank extractive summarisation over sentence embeddings.

- `src/` is the checked library: buffer layout (lane counts, chunking into
  rows and SIMD lanes, flattening, mirroring, transposing and clearing lines
  of square matrices), shape validation, reading the embedding matrix out of
  a safetensors image, little-endian decoding of tensor buffers, and the
  ranking of sentences by score. Its functions carry proved contracts; the
  `lemma_*` proof functions state the laws that hold across calls.
- Two calls into the `safetensors` crate are trusted rather than proved: the
  image parse and the header parse in `src/tensor.rs`. The image parser
  panics on a header whose declared data ends past `usize::MAX`; such
  headers are detected with the header parse and refused before the image
  parse sees them.
- `app/` holds the numeric kernels on `f32` values (`ndarray`, CBLAS, `wide`
  and AVX2 backends), file loading and the Python binding; it calls the
  library for the layout, shape and ranking steps.
- `tests/` runs the library on concrete values.
