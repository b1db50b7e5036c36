# rpeg

A lossy image codec built around three verified pieces:

- `src/bitpack.rs`: reading and writing unsigned and signed bit fields of a
  64-bit word (`fitsu`, `fitss`, `getu`, `gets`, `newu`, `news`), specified
  with integer arithmetic and proved against it, with the laws that relate
  reads and writes.
- `src/array2.rs`: `Array2<T>`, a two-dimensional array in row-major order,
  with access by column and row and both traversal orders.
- `src/codec.rs`: the integer side of the codec: packing the quantized values
  of a 2x2 block into a 32-bit code word and back, and which pixels each block
  covers when compressing and when decompressing.

`src/word_math.rs` holds the arithmetic lemmas the proofs share.

`app/` holds what cannot be verified: reading and writing images and rpeg
data (through the `csc411_image` and `csc411_rpegio` crates) and the
floating-point colour transforms (with `csc411_arith`'s chroma table).
