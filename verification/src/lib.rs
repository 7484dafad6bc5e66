//! Verified core of an audio compressor: WAV ingestion, linear-prediction statistics,
//! Golomb-Rice entropy coding, the decoder of whole streams, and the archive and WAV byte formats.

pub mod bits;
pub mod code;
pub mod decompress;
pub mod entropy;
pub mod ingest;
pub mod laws;
pub mod le;
pub mod lpc;
pub mod pipeline;
pub mod reader;
pub mod rice;
pub mod sarcophagus;
pub mod stream;
pub mod sums;
