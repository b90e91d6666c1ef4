//! Fast decoding of fixed-width timestamp records and chunked reading of
//! newline-terminated records, with the small text utilities around them.
pub mod parse;
pub mod datetime;
pub mod line_reader;
pub mod batch;
pub mod filename;
pub mod http;
pub mod text_decode;
pub mod distances;
pub mod markdown;
