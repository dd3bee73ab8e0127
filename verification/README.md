# facewave

A lossy codec for greyscale faces. Each face is split into a symmetric and an
antisymmetric half, put through a Haar wavelet transform, quantised, turned
into zerotree symbols, arithmetic-coded and packed into a `.face` file.

`src/` is the part of the codec that works on integers, verified with Verus:

- `stages::model` — adaptive frequency models (cumulative counts, halving).
- `stages::bitio` — bit writer and reader, base-128 varints.
- `stages::arithmetic` — the 32-bit adaptive arithmetic coder, the zerotree
  contexts, and the container of the dominant and refinement symbol streams.
- `stages::roundtrip` — proofs that decoding gives back what was encoded, for
  the coder and for the symbol container.
- `stages::zerotree` — band geometry of the wavelet pyramid, the zerotree
  forest over it, and embedded zerotree (EZW) coding: dominant and refinement
  passes from the start threshold down to 1, and the rebuild from the two
  streams.
- `stages::rebuild` — the proof that rebuilding from the streams of `build`
  gives back every coefficient exactly.
- `stages::pyramid` — proofs on the pyramid: children lie one level finer in
  the same band, and every detail coefficient has exactly one parent.
- `channels` — the integer half of the encode and decode pipelines: both
  coefficient planes of an image coded into a `.face` file and read back,
  with the proof that every coefficient comes back exactly.
- `format` — the `.face` container, with proofs that reading gives back what
  was written.
- `cli` — the error type of the command line.

`app/` is the command-line program: image loading and saving, the
floating-point stages (alignment, symmetry split, Haar transform,
quantisation) around the library's `channels`.
