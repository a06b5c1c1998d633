# quadtree_image

A quadtree image codec, written in Verus and verified.

The encoder cuts each plane of a YUV 4:2:2 frame (the two chrominance planes
at half width, full height) into square blocks (a power of two up to 128
pixels wide). Each block starts from last colour 255, in the encoder and in
the decoder alike. A block whose spread between darkest and
brightest pixel is small enough becomes a leaf: `1 1` when its average is
within 4 of the last colour written (at most four times in a row), else
`1 0` and its average as eight bits. Any other block is written as `0` and
its four quarters. The file is `QGIF`, the two block sizes, the width and the
height (big-endian), then the packed bits.

Layout:

- `src/`: the verified library (bit writer and reader, encoder, decoder,
  file format). The contracts state each function's result over the models
  in `bits.rs`, `quadtree.rs` and `plane.rs`; the laws (`law_*`) state that
  the decoder reads back what the encoder wrote, paints every pixel of a
  plane, and paints each leaf within 4 of its block's average.
- `app/`: the command line (`encode`, `decode`), which reads and writes
  images through `ffprobe` and `ffmpeg`.
- `tests/`: tests on concrete values.
