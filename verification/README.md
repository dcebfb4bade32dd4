# Oscilloscope

A viewer for very long waveform recordings. A CSV file is converted once into
compressed chunks with an index; after that any range of it is shown by decoding
only the chunks that overlap the range.

- `src/` is the library, written in Verus: the channel codec, the chunk index and
  store, the queries, the reading of CSV rows, edge detection, the strip layout
  and the bookkeeping of the view. Samples are the bit patterns of IEEE 754
  doubles, so that comparisons are integer computations with contracts.
- `src/read_back.rs` joins the ends: what a query shows of the rows that were
  gathered.
- `app/` is the program around it: files, threads, windows, and all
  floating-point arithmetic.
- `tests/` runs the library on concrete values.
