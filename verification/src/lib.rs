//! Waveform storage and analysis for an oscilloscope viewer.
//!
//! The library holds the parts of the viewer that can be stated exactly: the
//! compressed channel format, the chunk index and its cache, the decimating
//! queries, the splitting of CSV text into rows, edge detection, the strip
//! layout and the bookkeeping of the view.  Sample values are carried as the
//! bit patterns of IEEE 754 doubles (see [`sample`]), so every comparison that
//! the viewer makes is an integer computation with a contract.

pub mod cache;
pub mod chunk_cache;
pub mod chunk_index;
pub mod chunk_store;
pub mod chunk_writer;
pub mod csv_index;
pub mod csv_query;
pub mod csv_rows;
pub mod cursor;
pub mod data;
pub mod density;
pub mod envelope;
pub mod export;
pub mod eye_diagram;
pub mod fft_analysis;
pub mod le;
pub mod math_channel;
pub mod measurement;
pub mod raw_query;
pub mod read_back;
pub mod sample;
pub mod segments;
pub mod sort;
pub mod stats;
pub mod stats_query;
pub mod strips;
pub mod text;
pub mod tsz_codec;
pub mod units;
pub mod view;
