//! Error taxonomy of the repair pipeline.

use vstd::prelude::*;

verus! {

/// Errors the library can report.
///
/// `Encoding` is raised by the encoding guard when the byte/character ratio
/// suggests a multi-byte text encoding. The two parse variants are raised by
/// the hex decoder; given the noise filter's invariants they signal an
/// internal-invariant violation rather than bad user input. `BadExtension`
/// and `MissingHeader` come from the collaborator precondition checks.
#[derive(Clone, Copy, Debug, PartialEq, Eq, Structural)]
pub enum FastaError {
    /// Byte/character ratio indicates a likely multi-byte encoding.
    Encoding,
    /// The hex stream handed to the decoder has odd length.
    ParseOddLength,
    /// A two-character group in the hex stream is not a valid hex pair.
    ParseInvalidPair,
    /// The file name does not carry an allow-listed extension.
    BadExtension,
    /// The content holds no header-marker line.
    MissingHeader,
}

} // verus!
