//! Repair of malformed FASTA text files.
//!
//! The pipeline encodes raw bytes to an uppercase hex stream, removes noise
//! (leading garbage, duplicated record markers, stray control bytes, ragged
//! terminators) on that stream, decodes it back to text, and optionally
//! unwraps multi-line sequences and anonymizes headers.

pub mod anonymizer;
pub mod errors;
pub mod guard;
pub mod lines;
pub mod noise;
pub mod pipeline;
pub mod prechecks;
pub mod structure;
pub mod telemetry;
pub mod text;
pub mod transcoder;

pub use anonymizer::rename_headers_in_output;
pub use errors::FastaError;
pub use guard::check_encoding;
pub use guard::count_non_nul_chars;
pub use noise::clean_hex_stream;
pub use pipeline::repair_bytes;
pub use prechecks::check_file_extension;
pub use prechecks::has_header_line;
pub use structure::unwrap_fasta;
pub use telemetry::memory_warning_due;
pub use transcoder::convert_hex_to_text;
pub use transcoder::encode;
